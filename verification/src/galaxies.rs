use vstd::prelude::*;

verus! {

/// How many times as wide an empty line is taken to be: twice in the one
/// reckoning and a million times in the other.
pub const COORD_EXPANSION_FACTORS: [usize; 2] = [2, 1_000_000];

/// `by` holds the galaxies of `all`, each as often as `all` does, in
/// ascending order of their coordinate `dim`.
pub open spec fn is_arranged(all: Seq<[usize; 2]>, by: Seq<[usize; 2]>, dim: int) -> bool {
    &&& by.to_multiset() == all.to_multiset()
    &&& forall|i: int, j: int| 0 <= i <= j < by.len() ==> by[i][dim] <= by[j][dim]
}

/// The number of lines without a galaxy that are counted up to galaxy `at`
/// of an arrangement: for each galaxy up to it the lines between it and
/// the one before, and for the first those between it and line 0.
pub open spec fn empty_lines(by: Seq<[usize; 2]>, dim: int, at: int) -> int
    decreases at + 1,
{
    if at < 0 {
        0
    } else {
        let before = if at == 0 {
            0
        } else {
            by[at - 1][dim] as int
        };
        let gap = by[at][dim] - before;
        empty_lines(by, dim, at - 1) + if gap >= 1 {
            gap - 1
        } else {
            0
        }
    }
}

/// Where galaxy `at` of an arrangement lies when every empty line counts
/// `factor` times.
pub open spec fn actual(by: Seq<[usize; 2]>, dim: int, factor: int, at: int) -> int {
    by[at][dim] + empty_lines(by, dim, at) * (factor - 1)
}

/// The sum of the places of the first `upto` galaxies of an arrangement.
pub open spec fn places_sum(by: Seq<[usize; 2]>, dim: int, factor: int, upto: int) -> int
    decreases upto,
{
    if upto <= 0 {
        0
    } else {
        places_sum(by, dim, factor, upto - 1) + actual(by, dim, factor, upto - 1)
    }
}

/// The sum, over all pairs among the first `upto` galaxies of an
/// arrangement, of how far the two are apart along `dim`: each galaxy lies
/// as far from the ones before it as its place times their number exceeds
/// the sum of their places.
pub open spec fn spread(by: Seq<[usize; 2]>, dim: int, factor: int, upto: int) -> int
    decreases upto,
{
    if upto <= 0 {
        0
    } else {
        spread(by, dim, factor, upto - 1) + (actual(by, dim, factor, upto - 1) * (upto - 1)
            - places_sum(by, dim, factor, upto - 1))
    }
}

/// How far galaxy `at` of an arrangement lies from the first `upto`
/// galaxies, all distances taken together.
pub open spec fn apart_from(by: Seq<[usize; 2]>, dim: int, factor: int, at: int, upto: int) -> int
    decreases upto,
{
    if upto <= 0 {
        0
    } else {
        apart_from(by, dim, factor, at, upto - 1) + (actual(by, dim, factor, at) - actual(
            by,
            dim,
            factor,
            upto - 1,
        ))
    }
}

/// How far the first `upto` galaxies of an arrangement lie from each
/// other, the distances of all pairs taken together.
pub open spec fn all_apart(by: Seq<[usize; 2]>, dim: int, factor: int, upto: int) -> int
    decreases upto,
{
    if upto <= 0 {
        0
    } else {
        all_apart(by, dim, factor, upto - 1) + apart_from(by, dim, factor, upto - 1, upto - 1)
    }
}

/// The spread of an arrangement is the sum of the distances of all pairs of
/// its galaxies.
pub proof fn lemma_spread_is_all_apart(by: Seq<[usize; 2]>, dim: int, factor: int, upto: int)
    ensures
        spread(by, dim, factor, upto) == all_apart(by, dim, factor, upto),
    decreases upto,
{
    if upto > 0 {
        lemma_spread_is_all_apart(by, dim, factor, upto - 1);
        lemma_apart_from(by, dim, factor, upto - 1, upto - 1);
    }
}

/// A galaxy lies as far from the ones before it as its place times their
/// number exceeds the sum of their places.
proof fn lemma_apart_from(by: Seq<[usize; 2]>, dim: int, factor: int, at: int, upto: int)
    ensures
        apart_from(by, dim, factor, at, upto) == actual(by, dim, factor, at) * (if upto <= 0 {
            0
        } else {
            upto
        }) - places_sum(by, dim, factor, upto),
    decreases upto,
{
    let place = actual(by, dim, factor, at);
    if upto > 0 {
        lemma_apart_from(by, dim, factor, at, upto - 1);
        assert(place * upto == place * (upto - 1) + place) by (nonlinear_arith);
    } else {
        assert(place * 0 == 0) by (nonlinear_arith);
    }
}

/// Whether the distances along `dim` can be added up in machine words for
/// an arrangement.
pub open spec fn adds_up(by: Seq<[usize; 2]>, dim: int, factor: int) -> bool {
    forall|upto: int|
        0 <= upto <= by.len() ==> {
            &&& #[trigger] spread(by, dim, factor, upto) <= usize::MAX
            &&& places_sum(by, dim, factor, upto) <= usize::MAX
            &&& upto < by.len() ==> empty_lines(by, dim, upto) <= usize::MAX && empty_lines(
                by,
                dim,
                upto,
            ) * (factor - 1) <= usize::MAX && actual(by, dim, factor, upto) * upto <= usize::MAX
        }
}

/// In an arrangement no galaxy lies before one that comes before it, and no
/// number of empty lines is negative.
proof fn lemma_places_ascend(by: Seq<[usize; 2]>, dim: int, factor: int, i: int, j: int)
    requires
        forall|a: int, b: int| 0 <= a <= b < by.len() ==> by[a][dim] <= by[b][dim],
        0 <= i <= j < by.len(),
        factor >= 1,
    ensures
        0 <= empty_lines(by, dim, i) <= empty_lines(by, dim, j),
        0 <= actual(by, dim, factor, i) <= actual(by, dim, factor, j),
    decreases j - i, i,
{
    if i < j {
        lemma_places_ascend(by, dim, factor, i, j - 1);
        assert(empty_lines(by, dim, j) >= empty_lines(by, dim, j - 1));
    } else if i > 0 {
        lemma_places_ascend(by, dim, factor, i - 1, i - 1);
        assert(empty_lines(by, dim, i) >= empty_lines(by, dim, i - 1));
    } else {
        assert(empty_lines(by, dim, -1) == 0);
        assert(empty_lines(by, dim, 0) >= empty_lines(by, dim, -1));
    }
    let low = empty_lines(by, dim, i);
    let high = empty_lines(by, dim, j);
    assert(low * (factor - 1) <= high * (factor - 1)) by (nonlinear_arith)
        requires
            0 <= low <= high,
            factor >= 1,
    ;
    assert(0 <= low * (factor - 1)) by (nonlinear_arith)
        requires
            0 <= low,
            factor >= 1,
    ;
}

/// The places of the galaxies before one add up to no more than its place
/// times their number.
proof fn lemma_places_sum_at_most(by: Seq<[usize; 2]>, dim: int, factor: int, at: int, upto: int)
    requires
        forall|a: int, b: int| 0 <= a <= b < by.len() ==> by[a][dim] <= by[b][dim],
        0 <= upto <= at < by.len(),
        factor >= 1,
    ensures
        0 <= places_sum(by, dim, factor, upto) <= actual(by, dim, factor, at) * upto,
    decreases upto,
{
    let place = actual(by, dim, factor, at);
    if upto > 0 {
        lemma_places_sum_at_most(by, dim, factor, at, upto - 1);
        lemma_places_ascend(by, dim, factor, upto - 1, at);
        assert(place * upto == place * (upto - 1) + place) by (nonlinear_arith);
    } else {
        assert(place * upto == 0) by (nonlinear_arith)
            requires
                upto == 0,
        ;
    }
}

/// Puts the galaxies in ascending order of their coordinate `dim`, as
/// `sort_unstable_by_key` of slices does: the same galaxies, each as often
/// as before, none with a larger coordinate than a later one.
#[verifier::external_body]
fn arrange(galaxies: &mut [[usize; 2]], dim: usize)
    requires
        dim < 2,
    ensures
        is_arranged(old(galaxies)@, final(galaxies)@, dim as int),
{
    galaxies.sort_unstable_by_key(|coord| coord[dim]);
}

/// The sum of the distances between all pairs of galaxies along `dim`,
/// once with each factor, for galaxies in ascending order of their
/// coordinate `dim`.
fn spread_along(galaxies: &[[usize; 2]], dim: usize) -> (sums: [usize; 2])
    requires
        dim < 2,
        forall|a: int, b: int|
            0 <= a <= b < galaxies@.len() ==> galaxies@[a][dim as int] <= galaxies@[b][dim as int],
        adds_up(galaxies@, dim as int, COORD_EXPANSION_FACTORS[0] as int),
        adds_up(galaxies@, dim as int, COORD_EXPANSION_FACTORS[1] as int),
    ensures
        sums@[0] == spread(
            galaxies@,
            dim as int,
            COORD_EXPANSION_FACTORS[0] as int,
            galaxies@.len() as int,
        ),
        sums@[1] == spread(
            galaxies@,
            dim as int,
            COORD_EXPANSION_FACTORS[1] as int,
            galaxies@.len() as int,
        ),
{
    let ghost by = galaxies@;
    let ghost d = dim as int;
    let mut prev: usize = 0;
    let mut num_expanded: usize = 0;
    let mut sum_near: usize = 0;
    let mut sum_far: usize = 0;
    let mut near: usize = 0;
    let mut far: usize = 0;
    let mut num_before: usize = 0;
    while num_before < galaxies.len()
        invariant
            dim < 2,
            by == galaxies@,
            d == dim as int,
            forall|a: int, b: int| 0 <= a <= b < by.len() ==> by[a][d] <= by[b][d],
            adds_up(by, d, 2),
            adds_up(by, d, 1_000_000),
            num_before <= by.len(),
            prev == if num_before == 0 {
                0
            } else {
                by[num_before - 1][d] as int
            },
            num_expanded == empty_lines(by, d, num_before - 1),
            sum_near == places_sum(by, d, 2, num_before as int),
            sum_far == places_sum(by, d, 1_000_000, num_before as int),
            near == spread(by, d, 2, num_before as int),
            far == spread(by, d, 1_000_000, num_before as int),
        decreases by.len() - num_before,
    {
        let coord = galaxies[num_before];
        let ghost at = num_before as int;
        proof {
            if at > 0 {
                assert(by[at - 1][d] <= by[at][d]);
            }
            assert(spread(by, d, 2, at) <= usize::MAX);
            assert(spread(by, d, 1_000_000, at) <= usize::MAX);
            assert(spread(by, d, 2, at + 1) <= usize::MAX);
            assert(spread(by, d, 1_000_000, at + 1) <= usize::MAX);
            lemma_places_ascend(by, d, 2, at, at);
            lemma_places_sum_at_most(by, d, 2, at, at);
            lemma_places_sum_at_most(by, d, 1_000_000, at, at);
        }
        let gap = coord[dim] - prev;
        if gap >= 1 {
            num_expanded += gap - 1;
        }
        prev = coord[dim];
        let place_near = coord[dim] + num_expanded * (2 - 1);
        let place_far = coord[dim] + num_expanded * (1_000_000 - 1);
        near += place_near * num_before - sum_near;
        sum_near += place_near;
        far += place_far * num_before - sum_far;
        sum_far += place_far;
        num_before += 1;
    }
    [near, far]
}

/// The sum of the distances between all pairs of galaxies: once with every
/// empty row and every empty column counted twice, once with each counted
/// a million times. The distance between two galaxies is how far they are
/// apart along the rows plus how far along the columns.
///
/// The galaxies are left in ascending order of their second coordinate.
pub fn solve(galaxies: &mut [[usize; 2]]) -> (sums: [usize; 2])
    requires
        forall|by: Seq<[usize; 2]>, dim: int|
            0 <= dim < 2 && #[trigger] is_arranged(old(galaxies)@, by, dim) ==> adds_up(by, dim, 2)
                && adds_up(by, dim, 1_000_000),
        forall|first: Seq<[usize; 2]>, second: Seq<[usize; 2]>|
            #[trigger] is_arranged(old(galaxies)@, first, 0) && #[trigger] is_arranged(
                old(galaxies)@,
                second,
                1,
            ) ==> spread(first, 0, 2, first.len() as int) + spread(
                second,
                1,
                2,
                second.len() as int,
            ) <= usize::MAX && spread(first, 0, 1_000_000, first.len() as int) + spread(
                second,
                1,
                1_000_000,
                second.len() as int,
            ) <= usize::MAX,
    ensures
        is_arranged(old(galaxies)@, final(galaxies)@, 1),
        exists|first: Seq<[usize; 2]>| #[trigger]
            is_arranged(old(galaxies)@, first, 0) && sums@[0] == spread(
                first,
                0,
                2,
                first.len() as int,
            ) + spread(final(galaxies)@, 1, 2, final(galaxies)@.len() as int) && sums@[1]
                == spread(first, 0, 1_000_000, first.len() as int) + spread(
                final(galaxies)@,
                1,
                1_000_000,
                final(galaxies)@.len() as int,
            ),
{
    arrange(galaxies, 0);
    let ghost first = galaxies@;
    let along_rows = spread_along(galaxies, 0);
    arrange(galaxies, 1);
    proof {
        assert(is_arranged(old(galaxies)@, first, 0));
        assert(is_arranged(old(galaxies)@, galaxies@, 1));
    }
    let along_cols = spread_along(galaxies, 1);
    [along_rows[0] + along_cols[0], along_rows[1] + along_cols[1]]
}

} // verus!
