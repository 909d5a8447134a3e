use vstd::prelude::*;
use std::collections::VecDeque;
use crate::reach::{
    closed, lemma_closed_holds_reachable, lemma_reachable_self, lemma_reachable_step,
    lemma_unmarked_update, reachable, unmarked,
};

verus! {

/// The value that stands for "no node" and for "no wire".
pub const NONE: usize = usize::MAX;

/// Some wire of `from` leads to `to`. A wire whose end is no node of the
/// graph is cut and leads nowhere.
pub open spec fn is_wire(adj: Seq<Vec<(usize, usize)>>, from: int, to: int) -> bool {
    &&& 0 <= from < adj.len()
    &&& 0 <= to < adj.len()
    &&& exists|idx: int| 0 <= idx < adj[from]@.len() && (#[trigger] adj[from]@[idx]).0 == to
}

/// The wires of the graph that are not cut.
pub open spec fn wires(adj: Seq<Vec<(usize, usize)>>) -> spec_fn(int, int) -> bool {
    |from: int, to: int| is_wire(adj, from, to)
}

/// For each node whether a way into it has been recorded.
pub open spec fn reached(inc: Seq<(usize, usize)>) -> Seq<bool> {
    Seq::new(inc.len(), |node: int| inc[node].0 != NONE)
}

/// What holds while the nodes are searched: the start is recorded as its
/// own way in, every way in that is recorded is a wire from a node that was
/// reached before, and every node that was reached can be reached.
spec fn ways_in_are_wires(adj: Seq<Vec<(usize, usize)>>, inc: Seq<(usize, usize)>, s: int) -> bool {
    &&& inc.len() == adj.len()
    &&& 0 <= s < adj.len()
    &&& inc[s] == (s as usize, NONE)
    &&& forall|node: int|
        0 <= node < adj.len() && (#[trigger] inc[node]).0 != NONE ==> reachable(
            wires(adj),
            s,
            node,
        )
    &&& forall|node: int|
        0 <= node < adj.len() && node != s && (#[trigger] inc[node]).0 != NONE ==> {
            &&& inc[node].0 < adj.len()
            &&& inc[inc[node].0 as int].0 != NONE
            &&& inc[node].1 < adj[inc[node].0 as int]@.len()
            &&& adj[inc[node].0 as int]@[inc[node].1 as int].0 == node
        }
}

/// Every node that was reached is still waiting in the queue, unless it is
/// `in_hand`, or has none but reached nodes at the ends of its wires.
spec fn reached_are_waiting(
    adj: Seq<Vec<(usize, usize)>>,
    inc: Seq<(usize, usize)>,
    queue: Seq<usize>,
    in_hand: int,
) -> bool {
    &&& forall|i: int| 0 <= i < queue.len() ==> (#[trigger] queue[i]) < adj.len() && inc[queue[i] as int].0 != NONE
    &&& forall|from: int, to: int|
        0 <= from < adj.len() && inc[from].0 != NONE && from != in_hand && #[trigger] is_wire(
            adj,
            from,
            to,
        ) && !queue.contains(from as usize) ==> inc[to].0 != NONE
}

/// Searches the graph breadth first from `s` and records in `inc`, for each
/// node that can be reached along wires that are not cut, a way into it:
/// the node that it was first reached from and the number of the wire taken
/// there. The start is recorded as its own way in, with no wire. The other
/// nodes are left without a way in.
///
/// `adj` holds for each node its wires, each as the node at its end and a
/// second number that is not looked at.
pub fn run_bfs(
    adj: &[Vec<(usize, usize)>],
    queue: &mut VecDeque<usize>,
    inc: &mut [(usize, usize)],
    s: usize,
)
    requires
        s < adj@.len(),
        old(inc)@.len() == adj@.len(),
        old(queue)@.len() == 0,
    ensures
        final(queue)@.len() == 0,
        final(inc)@.len() == adj@.len(),
        final(inc)@[s as int] == (s, NONE),
        forall|node: int|
            0 <= node < adj@.len() ==> ((#[trigger] final(inc)@[node]).0 != NONE <==> reachable(
                wires(adj@),
                s as int,
                node,
            )),
        forall|node: int|
            0 <= node < adj@.len() && node != s && (#[trigger] final(inc)@[node]).0 != NONE ==> {
                &&& final(inc)@[node].0 < adj@.len()
                &&& final(inc)@[final(inc)@[node].0 as int].0 != NONE
                &&& final(inc)@[node].1 < adj@[final(inc)@[node].0 as int]@.len()
                &&& adj@[final(inc)@[node].0 as int]@[final(inc)@[node].1 as int].0 == node
            },
{
    let nodes = adj.len();
    queue.push_back(s);
    let mut node: usize = 0;
    while node < nodes
        invariant
            node <= nodes,
            nodes == adj@.len(),
            inc@.len() == nodes,
            forall|before: int| 0 <= before < node ==> (#[trigger] inc@[before]).0 == NONE,
        decreases nodes - node,
    {
        inc[node] = (NONE, NONE);
        node += 1;
    }
    inc[s] = (s, NONE);
    proof {
        lemma_reachable_self(wires(adj@), s as int);
        assert(queue@ =~= seq![s]);
        assert(queue@[0] == s);
        assert forall|from: int, to: int|
            0 <= from < adj@.len() && inc@[from].0 != NONE && from != -1int && #[trigger] is_wire(
                adj@,
                from,
                to,
            ) && !queue@.contains(from as usize) implies inc@[to].0 != NONE by {
            assert(from == s);
            assert(queue@.contains(s));
        }
    }
    loop
        invariant
            nodes == adj@.len(),
            ways_in_are_wires(adj@, inc@, s as int),
            reached_are_waiting(adj@, inc@, queue@, -1),
        ensures
            queue@.len() == 0,
            nodes == adj@.len(),
            ways_in_are_wires(adj@, inc@, s as int),
            reached_are_waiting(adj@, inc@, queue@, -1),
        decreases 2 * unmarked(reached(inc@)) + queue@.len(),
    {
        let ghost waiting = queue@;
        let v = match queue.pop_front() {
            Some(v) => v,
            None => {
                break ;
            },
        };
        proof {
            assert(waiting[0] == v);
            assert forall|i: int| 0 <= i < queue@.len() implies (#[trigger] queue@[i]) < adj@.len()
                && inc@[queue@[i] as int].0 != NONE by {
                assert(queue@[i] == waiting[i + 1]);
            }
            assert forall|from: int, to: int|
                0 <= from < adj@.len() && inc@[from].0 != NONE && from != v && #[trigger] is_wire(
                    adj@,
                    from,
                    to,
                ) && !queue@.contains(from as usize) implies inc@[to].0 != NONE by {
                if waiting.contains(from as usize) {
                    let i = choose|i: int| 0 <= i < waiting.len() && waiting[i] == from as usize;
                    assert(queue@[i - 1] == waiting[i]);
                }
            }
        }
        let wires_of_v = &adj[v];
        let ghost budget = 2 * unmarked(reached(inc@)) + queue@.len();
        let mut idx: usize = 0;
        while idx < wires_of_v.len()
            invariant
                nodes == adj@.len(),
                v < nodes,
                wires_of_v@ == adj@[v as int]@,
                idx <= wires_of_v@.len(),
                inc@[v as int].0 != NONE,
                ways_in_are_wires(adj@, inc@, s as int),
                reached_are_waiting(adj@, inc@, queue@, v as int),
                forall|tried: int|
                    0 <= tried < idx && (#[trigger] wires_of_v@[tried]).0 < nodes
                        ==> inc@[wires_of_v@[tried].0 as int].0 != NONE,
                2 * unmarked(reached(inc@)) + queue@.len() <= budget,
            decreases wires_of_v@.len() - idx,
        {
            let (v2, _) = wires_of_v[idx];
            if v2 < nodes && inc[v2].0 == NONE {
                let ghost before = inc@;
                let ghost waiting = queue@;
                inc[v2] = (v, idx);
                queue.push_back(v2);
                proof {
                    assert(is_wire(adj@, v as int, v2 as int));
                    lemma_reachable_step(wires(adj@), s as int, v as int, v2 as int);
                    assert(reached(inc@) =~= reached(before).update(v2 as int, true));
                    lemma_unmarked_update(reached(before), v2 as int);
                    assert forall|node: int|
                        0 <= node < adj@.len() && (#[trigger] inc@[node]).0 != NONE implies reachable(
                        wires(adj@),
                        s as int,
                        node,
                    ) by {
                        if node != v2 {
                            assert(before[node].0 != NONE);
                        }
                    }
                    assert forall|node: int|
                        0 <= node < adj@.len() && node != s && (#[trigger] inc@[node]).0
                            != NONE implies {
                        &&& inc@[node].0 < adj@.len()
                        &&& inc@[inc@[node].0 as int].0 != NONE
                        &&& inc@[node].1 < adj@[inc@[node].0 as int]@.len()
                        &&& adj@[inc@[node].0 as int]@[inc@[node].1 as int].0 == node
                    } by {
                        if node != v2 {
                            assert(before[node].0 != NONE);
                            assert(before[before[node].0 as int].0 != NONE);
                        }
                    }
                    assert forall|i: int| 0 <= i < queue@.len() implies (#[trigger] queue@[i])
                        < adj@.len() && inc@[queue@[i] as int].0 != NONE by {
                        if i < waiting.len() {
                            assert(queue@[i] == waiting[i]);
                            assert(before[waiting[i] as int].0 != NONE);
                        }
                    }
                    assert forall|from: int, to: int|
                        0 <= from < adj@.len() && inc@[from].0 != NONE && from != v
                            && #[trigger] is_wire(adj@, from, to) && !queue@.contains(
                            from as usize,
                        ) implies inc@[to].0 != NONE by {
                        assert(queue@[waiting.len() as int] == v2);
                        assert(from != v2);
                        assert(before[from].0 != NONE);
                        if waiting.contains(from as usize) {
                            let i = choose|i: int|
                                0 <= i < waiting.len() && waiting[i] == from as usize;
                            assert(queue@[i] == waiting[i]);
                        }
                        assert(before[to].0 != NONE);
                    }
                    assert forall|tried: int|
                        0 <= tried < idx + 1 && (#[trigger] wires_of_v@[tried]).0
                            < nodes implies inc@[wires_of_v@[tried].0 as int].0 != NONE by {
                        if tried < idx {
                            assert(before[wires_of_v@[tried].0 as int].0 != NONE);
                        }
                    }
                }
            }
            idx += 1;
        }
        proof {
            assert forall|from: int, to: int|
                0 <= from < adj@.len() && inc@[from].0 != NONE && from != -1int
                    && #[trigger] is_wire(adj@, from, to) && !queue@.contains(
                    from as usize,
                ) implies inc@[to].0 != NONE by {
                if from == v {
                    let at = choose|at: int|
                        0 <= at < adj@[from]@.len() && (#[trigger] adj@[from]@[at]).0 == to;
                    assert(wires_of_v@[at].0 == to);
                }
            }
        }
    }
    proof {
        let marked = Set::new(|node: int| 0 <= node < adj@.len() && inc@[node].0 != NONE);
        assert forall|from: int, to: int| marked.contains(from) && #[trigger] wires(adj@)(
            from,
            to,
        ) implies marked.contains(to) by {
            assert(is_wire(adj@, from, to));
            assert(!queue@.contains(from as usize));
        }
        assert(closed(wires(adj@), marked));
        assert forall|node: int| 0 <= node < adj@.len() && reachable(
            wires(adj@),
            s as int,
            node,
        ) implies (#[trigger] inc@[node]).0 != NONE by {
            lemma_closed_holds_reachable(wires(adj@), marked, s as int, node);
        }
    }
}

} // verus!
