use vstd::prelude::*;
use itertools::Itertools;

verus! {

/// The size of a number without its sign.
pub open spec fn magnitude(n: int) -> int {
    if n < 0 {
        -n
    } else {
        n
    }
}

/// The length of the outline along the first `edges` edges of a chain of
/// points, where every edge runs along one of the two axes.
pub open spec fn outline(points: Seq<(i64, i64)>, edges: int) -> int
    decreases edges,
{
    if edges <= 0 {
        0
    } else {
        outline(points, edges - 1) + magnitude(points[edges].0 - points[edges - 1].0) + magnitude(
            points[edges].1 - points[edges - 1].1,
        )
    }
}

/// Twice the area that the first `edges` edges of a chain of points sweep
/// over, counted with its sign.
pub open spec fn twice_area(points: Seq<(i64, i64)>, edges: int) -> int
    decreases edges,
{
    if edges <= 0 {
        0
    } else {
        twice_area(points, edges - 1) + (points[edges - 1].1 + points[edges].1) * (points[edges
            - 1].0 - points[edges].0)
    }
}

/// The number of edges of a chain of points.
pub open spec fn edge_count(points: Seq<(i64, i64)>) -> int {
    if points.len() == 0 {
        0
    } else {
        points.len() - 1
    }
}

/// The number of unit cells that a closed chain of points with whole
/// coordinates covers, its outline included: by Pick's theorem the area
/// inside plus half the outline plus one.
pub open spec fn covered(points: Seq<(i64, i64)>) -> int {
    (magnitude(twice_area(points, edge_count(points))) + outline(points, edge_count(points))) / 2
        + 1
}

/// Whether a number lies between the least 64-bit integer, itself left out,
/// and the greatest.
pub open spec fn fits(n: int) -> bool {
    i64::MIN < n <= i64::MAX
}

/// Whether the area and the outline of a chain of points can be added up in
/// 64-bit integers edge by edge.
pub open spec fn adds_up(points: Seq<(i64, i64)>) -> bool {
    &&& forall|edge: int|
        1 <= edge <= edge_count(points) ==> {
            &&& fits(#[trigger] points[edge].0 - points[edge - 1].0)
            &&& fits(points[edge].1 - points[edge - 1].1)
            &&& fits(points[edge - 1].1 + points[edge].1)
            &&& fits(
                (points[edge - 1].1 + points[edge].1) * (points[edge - 1].0 - points[edge].0),
            )
            &&& fits(
                magnitude(points[edge].0 - points[edge - 1].0) + magnitude(
                    points[edge].1 - points[edge - 1].1,
                ),
            )
        }
    &&& forall|edges: int|
        0 <= edges <= edge_count(points) ==> fits(#[trigger] outline(points, edges)) && fits(
            twice_area(points, edges),
        )
    &&& fits(
        magnitude(twice_area(points, edge_count(points))) + outline(points, edge_count(points)),
    )
}

/// No outline has a negative length.
pub proof fn lemma_outline_not_negative(points: Seq<(i64, i64)>, edges: int)
    ensures
        outline(points, edges) >= 0,
    decreases edges,
{
    if edges > 0 {
        lemma_outline_not_negative(points, edges - 1);
    }
}

/// The pairs of neighbours in a chain of points, in order, as
/// `Itertools::tuple_windows` gives them: the first point with the second,
/// the second with the third, and so on. A chain of fewer than two points
/// has no such pair.
#[verifier::external_body]
fn neighbours(points: &[(i64, i64)]) -> (pairs: Vec<((i64, i64), (i64, i64))>)
    ensures
        pairs@.len() == edge_count(points@),
        forall|i: int| 0 <= i < pairs@.len() ==> pairs@[i] == (points@[i], points@[i + 1]),
{
    points.iter().copied().tuple_windows().collect()
}

/// The size of `n` without its sign.
fn size(n: i64) -> (sized: i64)
    requires
        n > i64::MIN,
    ensures
        sized == magnitude(n as int),
{
    if n < 0 {
        -n
    } else {
        n
    }
}

/// The number of unit cells that the closed chain `points` covers, its
/// outline included. The points have whole coordinates, each edge runs along
/// one of the two axes, and the last point is the first again.
pub fn polygon_area(points: &[(i64, i64)]) -> (cells: i64)
    requires
        adds_up(points@),
    ensures
        cells == covered(points@),
{
    let pairs = neighbours(points);
    let mut area: i64 = 0;
    let mut outline_so_far: i64 = 0;
    let mut edge: usize = 0;
    while edge < pairs.len()
        invariant
            adds_up(points@),
            pairs@.len() == edge_count(points@),
            forall|i: int| 0 <= i < pairs@.len() ==> pairs@[i] == (points@[i], points@[i + 1]),
            edge <= pairs@.len(),
            area == twice_area(points@, edge as int),
            outline_so_far == outline(points@, edge as int),
        decreases pairs@.len() - edge,
    {
        let ((x1, y1), (x2, y2)) = pairs[edge];
        proof {
            let next = edge + 1;
            assert(fits(points@[next].0 - points@[next - 1].0));
            assert(fits(outline(points@, next)));
            assert(fits(twice_area(points@, next)));
        }
        outline_so_far += size(x2 - x1) + size(y2 - y1);
        area += (y1 + y2) * (x1 - x2);
        edge += 1;
    }
    proof {
        assert(fits(outline(points@, edge_count(points@))));
        lemma_outline_not_negative(points@, edge_count(points@));
    }
    (size(area) + outline_so_far) / 2 + 1
}

} // verus!
