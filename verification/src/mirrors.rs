use vstd::prelude::*;

verus! {

/// The rows of a pattern as sequences of bytes.
pub open spec fn rows(grid: Seq<Vec<u8>>) -> Seq<Seq<u8>> {
    Seq::new(grid.len(), |row: int| grid[row]@)
}

/// The number of places among the first `upto` in which two rows differ.
pub open spec fn mismatches(first: Seq<u8>, second: Seq<u8>, upto: int) -> int
    decreases upto,
{
    if upto <= 0 {
        0
    } else {
        mismatches(first, second, upto - 1) + if first[upto - 1] != second[upto - 1] {
            1int
        } else {
            0int
        }
    }
}

/// The number of places that two rows share: the length of the shorter.
pub open spec fn shared(first: Seq<u8>, second: Seq<u8>) -> int {
    if first.len() <= second.len() {
        first.len() as int
    } else {
        second.len() as int
    }
}

/// The number of pairs of rows that face each other across the line below
/// row `line`.
pub open spec fn facing(grid: Seq<Seq<u8>>, line: int) -> int {
    if line + 1 <= grid.len() - line - 1 {
        line + 1
    } else {
        grid.len() - line - 1
    }
}

/// The number of places in which the pattern differs from its mirror image
/// in the line below row `line`, among the `pairs` pairs of rows nearest to
/// the line.
pub open spec fn smudges(grid: Seq<Seq<u8>>, line: int, pairs: int) -> int
    decreases pairs,
{
    if pairs <= 0 {
        0
    } else {
        let above = grid[line - (pairs - 1)];
        let below = grid[line + 1 + (pairs - 1)];
        smudges(grid, line, pairs - 1) + mismatches(above, below, shared(above, below))
    }
}

/// Whether the pattern differs from its mirror image in the line below row
/// `line` in exactly `diff` places.
pub open spec fn mirrors_but_for(grid: Seq<Seq<u8>>, line: int, diff: int) -> bool {
    smudges(grid, line, facing(grid, line)) == diff
}

/// The sum, over the lines below the first `upto` rows in which the pattern
/// mirrors itself but for `diff` places, of the number of rows above the
/// line.
pub open spec fn reflections(grid: Seq<Seq<u8>>, diff: int, upto: int) -> int
    decreases upto,
{
    if upto <= 0 {
        0
    } else {
        reflections(grid, diff, upto - 1) + if mirrors_but_for(grid, upto - 1, diff) {
            upto
        } else {
            0
        }
    }
}

/// More places do not hold fewer differences.
proof fn lemma_mismatches_grow(first: Seq<u8>, second: Seq<u8>, fewer: int, more: int)
    requires
        fewer <= more,
    ensures
        0 <= mismatches(first, second, fewer) <= mismatches(first, second, more),
    decreases more,
{
    if more > 0 {
        if fewer < more {
            lemma_mismatches_grow(first, second, fewer, more - 1);
        } else {
            lemma_mismatches_grow(first, second, fewer - 1, more - 1);
        }
    }
}

/// More pairs of rows do not hold fewer differences.
proof fn lemma_smudges_grow(grid: Seq<Seq<u8>>, line: int, fewer: int, more: int)
    requires
        fewer <= more,
    ensures
        0 <= smudges(grid, line, fewer) <= smudges(grid, line, more),
    decreases more,
{
    if more > 0 {
        let above = grid[line - (more - 1)];
        let below = grid[line + 1 + (more - 1)];
        lemma_mismatches_grow(above, below, 0, shared(above, below));
        if fewer < more {
            lemma_smudges_grow(grid, line, fewer, more - 1);
        } else {
            lemma_smudges_grow(grid, line, fewer - 1, more - 1);
        }
    }
}

/// More lines do not add up to less.
proof fn lemma_reflections_grow(grid: Seq<Seq<u8>>, diff: int, fewer: int, more: int)
    requires
        fewer <= more,
    ensures
        0 <= reflections(grid, diff, fewer) <= reflections(grid, diff, more),
    decreases more,
{
    if more > 0 {
        if fewer < more {
            lemma_reflections_grow(grid, diff, fewer, more - 1);
        } else {
            lemma_reflections_grow(grid, diff, fewer - 1, more - 1);
        }
    }
}

/// Whether the pattern differs from its mirror image in the line below row
/// `line` in exactly `diff` places.
fn differs_by(grid: &[Vec<u8>], line: usize, diff: usize) -> (exactly: bool)
    requires
        line + 1 < grid@.len(),
    ensures
        exactly == mirrors_but_for(rows(grid@), line as int, diff as int),
{
    let ghost model = rows(grid@);
    let rows_below = grid.len() - line - 1;
    let pairs = if line + 1 <= rows_below {
        line + 1
    } else {
        rows_below
    };
    let mut count: usize = 0;
    let mut pair: usize = 0;
    while pair < pairs
        invariant
            model == rows(grid@),
            line + 1 < grid@.len(),
            pairs == facing(model, line as int),
            pair <= pairs,
            count == smudges(model, line as int, pair as int),
            count <= diff,
        decreases pairs - pair,
    {
        let above = &grid[line - pair];
        let below = &grid[line + 1 + pair];
        let width = if above.len() <= below.len() {
            above.len()
        } else {
            below.len()
        };
        let ghost before = count;
        let mut col: usize = 0;
        while col < width
            invariant
                model == rows(grid@),
                line + 1 < grid@.len(),
                pairs == facing(model, line as int),
                pair < pairs,
                above@ == model[line - pair],
                below@ == model[line + 1 + pair],
                width == shared(above@, below@),
                col <= width,
                before == smudges(model, line as int, pair as int),
                count == before + mismatches(above@, below@, col as int),
                count <= diff,
            decreases width - col,
        {
            if above[col] != below[col] {
                if count == diff {
                    proof {
                        lemma_mismatches_grow(above@, below@, col + 1, width as int);
                        lemma_smudges_grow(model, line as int, pair + 1, pairs as int);
                    }
                    return false;
                }
                count += 1;
            }
            col += 1;
        }
        pair += 1;
    }
    count == diff
}

/// The sum, over the lines between two rows in which the pattern mirrors
/// itself but for `diff` places, of the number of rows above the line.
///
/// Rows that face each other across a line are compared place by place as
/// far as the shorter goes; rows with nothing across stay out.
pub fn count_reflections(grid: &[Vec<u8>], diff: usize) -> (total: usize)
    requires
        grid@.len() >= 1,
        reflections(rows(grid@), diff as int, grid@.len() - 1) <= usize::MAX,
    ensures
        total == reflections(rows(grid@), diff as int, grid@.len() - 1),
{
    let ghost model = rows(grid@);
    let lines = grid.len() - 1;
    let mut total: usize = 0;
    let mut line: usize = 0;
    while line < lines
        invariant
            model == rows(grid@),
            lines == grid@.len() - 1,
            line <= lines,
            reflections(model, diff as int, lines as int) <= usize::MAX,
            total == reflections(model, diff as int, line as int),
        decreases lines - line,
    {
        proof {
            lemma_reflections_grow(model, diff as int, line + 1, lines as int);
        }
        if differs_by(grid, line, diff) {
            total += line + 1;
        }
        line += 1;
    }
    total
}

} // verus!
