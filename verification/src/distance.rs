use vstd::prelude::*;
use crate::route::State;

verus! {

/// The value that stands for "not reached yet".
pub const UNREACHED: u32 = u32::MAX;

/// The table has one pair of entries for each cell of the grid.
pub open spec fn table_fits(grid: Seq<Seq<u8>>, table: Seq<Vec<[u32; 2]>>) -> bool {
    &&& table.len() == grid.len()
    &&& forall|row: int| 0 <= row < table.len() ==> (#[trigger] table[row])@.len() == grid[0].len()
}

/// The best cost known so far for `state`.
pub open spec fn dist_of(table: Seq<Vec<[u32; 2]>>, state: State) -> int {
    table[state.row as int]@[state.col as int][state.axis.spec_slot()] as int
}

/// The sum of the entries of one row of the table.
pub open spec fn row_total(row: Seq<[u32; 2]>) -> nat
    decreases row.len(),
{
    if row.len() == 0 {
        0
    } else {
        row_total(row.drop_last()) + row.last()[0] as nat + row.last()[1] as nat
    }
}

/// The sum of all entries of the table.
pub open spec fn table_total(table: Seq<Vec<[u32; 2]>>) -> nat
    decreases table.len(),
{
    if table.len() == 0 {
        0
    } else {
        table_total(table.drop_last()) + row_total(table.last()@)
    }
}

/// A new pair of entries changes the sum of a row by what the pair adds.
proof fn lemma_row_total_update(row: Seq<[u32; 2]>, col: int, pair: [u32; 2])
    requires
        0 <= col < row.len(),
    ensures
        row_total(row.update(col, pair)) + row[col][0] + row[col][1] == row_total(row) + pair[0]
            + pair[1],
    decreases row.len(),
{
    let updated = row.update(col, pair);
    if col == row.len() - 1 {
        assert(updated.drop_last() =~= row.drop_last());
    } else {
        assert(updated.drop_last() =~= row.drop_last().update(col, pair));
        lemma_row_total_update(row.drop_last(), col, pair);
    }
}

/// A new row changes the sum of the table by what the row adds.
proof fn lemma_table_total_update(table: Seq<Vec<[u32; 2]>>, row: int, cells: Vec<[u32; 2]>)
    requires
        0 <= row < table.len(),
    ensures
        table_total(table.update(row, cells)) + row_total(table[row]@) == table_total(table)
            + row_total(cells@),
    decreases table.len(),
{
    let updated = table.update(row, cells);
    if row == table.len() - 1 {
        assert(updated.drop_last() =~= table.drop_last());
    } else {
        assert(updated.drop_last() =~= table.drop_last().update(row, cells));
        lemma_table_total_update(table.drop_last(), row, cells);
    }
}

/// A table in which every state of a `height` by `width` grid is unreached.
pub fn unreached_table(height: usize, width: usize) -> (table: Vec<Vec<[u32; 2]>>)
    ensures
        table@.len() == height,
        forall|row: int| 0 <= row < height ==> (#[trigger] table@[row])@.len() == width,
        forall|row: int, col: int, slot: int|
            0 <= row < height && 0 <= col < width && 0 <= slot < 2 ==> #[trigger] table@[row]@[col][slot]
                == UNREACHED,
{
    vec![vec![[UNREACHED; 2]; width]; height]
}

/// The best cost known so far for `state`.
pub fn distance(table: &Vec<Vec<[u32; 2]>>, state: State) -> (best: u32)
    requires
        state.row < table@.len(),
        state.col < table@[state.row as int]@.len(),
    ensures
        best == dist_of(table@, state),
{
    table[state.row][state.col][state.axis.slot()]
}

/// Records `best` as the cost of `state`, and leaves every other entry as it
/// was.
pub fn set_distance(table: &mut Vec<Vec<[u32; 2]>>, state: State, best: u32)
    requires
        state.row < old(table)@.len(),
        state.col < old(table)@[state.row as int]@.len(),
    ensures
        final(table)@.len() == old(table)@.len(),
        forall|row: int|
            0 <= row < old(table)@.len() ==> (#[trigger] final(table)@[row])@.len() == old(
                table,
            )@[row]@.len(),
        dist_of(final(table)@, state) == best,
        forall|other: State|
            other != state && other.row < old(table)@.len() && other.col < old(
                table,
            )@[other.row as int]@.len() ==> #[trigger] dist_of(final(table)@, other) == dist_of(
                old(table)@,
                other,
            ),
        table_total(final(table)@) + dist_of(old(table)@, state) == table_total(old(table)@)
            + best,
{
    let ghost before = table@;
    let ghost row = state.row as int;
    let ghost col = state.col as int;
    let slot = state.axis.slot();
    table[state.row][state.col][slot] = best;
    proof {
        let pair = table@[row]@[col];
        assert(table@[row]@ =~= before[row]@.update(col, pair));
        assert(table@ =~= before.update(row, table@[row]));
        lemma_row_total_update(before[row]@, col, pair);
        lemma_table_total_update(before, row, table@[row]);
        assert(pair@ =~= before[row]@[col]@.update(slot as int, best));
        assert(pair[1 - slot] == before[row]@[col][1 - slot]);
    }
}

} // verus!
