use vstd::prelude::*;

verus! {

/// The byte of a spring that works: `.`.
pub const WORKING: u8 = 46;

/// The byte of a spring that is broken: `#`.
pub const BROKEN: u8 = 35;

/// The number of springs up to and with position `at` since the last one
/// that is known to work.
pub open spec fn run_len(records: Seq<u8>, at: int) -> int
    decreases at + 1,
{
    if at < 0 || records[at] == WORKING {
        0
    } else {
        1 + run_len(records, at - 1)
    }
}

/// The number of ways to tell, for each of the first `upto` springs, whether
/// it works or is broken, so that nothing that the records say of a spring
/// is contradicted and the broken ones form runs of the lengths of the first
/// `count` blocks, in this order, each with a working spring before it.
///
/// The last of the springs either works, which leaves the others to hold
/// all the blocks, or is the end of the last block.
pub open spec fn ways(records: Seq<u8>, blocks: Seq<usize>, count: int, upto: int) -> int
    decreases upto,
{
    if upto <= 0 {
        if count == 0 {
            1
        } else {
            0
        }
    } else {
        let without = if records[upto - 1] != BROKEN {
            ways(records, blocks, count, upto - 1)
        } else {
            0
        };
        let block = blocks[count - 1] as int;
        let with = if count > 0 && upto - 1 >= block && run_len(records, upto - 1) >= block
            && records[upto - 1 - block] != BROKEN {
            ways(records, blocks, count - 1, upto - 1 - block)
        } else {
            0
        };
        without + with
    }
}

/// Whether the numbers of ways for all the blocks and all the springs, and
/// for any part of them from the start, are 64-bit numbers.
pub open spec fn countable(records: Seq<u8>, blocks: Seq<usize>) -> bool {
    forall|count: int, upto: int|
        0 <= count <= blocks.len() && 0 <= upto <= records.len() ==> #[trigger] ways(
            records,
            blocks,
            count,
            upto,
        ) <= u64::MAX
}

/// No number of ways is negative.
pub proof fn lemma_ways_not_negative(records: Seq<u8>, blocks: Seq<usize>, count: int, upto: int)
    ensures
        ways(records, blocks, count, upto) >= 0,
    decreases upto,
{
    if upto > 0 {
        lemma_ways_not_negative(records, blocks, count, upto - 1);
        let block = blocks[count - 1] as int;
        if count > 0 && upto - 1 >= block {
            lemma_ways_not_negative(records, blocks, count - 1, upto - 1 - block);
        }
    }
}

/// The number of ways to tell of each spring whether it works or is broken,
/// so that nothing that the records say is contradicted and the broken
/// springs form runs of the lengths in `blocks`, in this order.
///
/// In `records` a spring is `.` where it is known to work, `#` where it is
/// known to be broken, and anything else where it is not known. The first
/// spring is known to work.
pub fn count_valid_arrangements(records: &[u8], blocks: &[usize]) -> (arrangements: u64)
    requires
        records@.len() >= 1,
        records@[0] == WORKING,
        records@.len() < usize::MAX,
        countable(records@, blocks@),
    ensures
        arrangements == ways(records@, blocks@, blocks@.len() as int, records@.len() as int),
{
    let len = records.len();
    let mut dp: Vec<u64> = Vec::new();
    let mut dp_prev: Vec<u64> = Vec::new();
    let mut open = true;
    let mut j: usize = 0;
    while j <= len
        invariant
            j <= len + 1,
            len == records@.len(),
            len < usize::MAX,
            dp@.len() == j,
            dp_prev@.len() == j,
            open <==> forall|t: int| 0 <= t < j - 1 ==> records@[t] != BROKEN,
            forall|t: int| 0 <= t < j ==> dp_prev@[t] == ways(records@, blocks@, 0, t),
        decreases len + 1 - j,
    {
        if j > 0 && records[j - 1] == BROKEN {
            open = false;
        }
        proof {
            if j > 0 {
                let t = j as int;
                assert(dp_prev@[t - 1] == ways(records@, blocks@, 0, t - 1));
                if open {
                    assert(ways(records@, blocks@, 0, t - 1) == 1) by {
                        lemma_no_blocks(records@, blocks@, t - 1);
                    }
                } else {
                    lemma_no_blocks(records@, blocks@, t);
                }
            }
        }
        dp.push(0);
        dp_prev.push(if open {
            1
        } else {
            0
        });
        proof {
            let t = j as int;
            lemma_no_blocks(records@, blocks@, t);
        }
        j += 1;
    }
    let mut count: usize = 0;
    while count < blocks.len()
        invariant
            count <= blocks@.len(),
            len == records@.len(),
            len < usize::MAX,
            countable(records@, blocks@),
            dp@.len() == len + 1,
            dp_prev@.len() == len + 1,
            forall|t: int|
                0 <= t <= len ==> dp_prev@[t] == ways(records@, blocks@, count as int, t),
        decreases blocks@.len() - count,
    {
        let block = blocks[count];
        dp[0] = 0;
        let mut max_block: usize = 0;
        let mut j: usize = 0;
        while j < len
            invariant
                count < blocks@.len(),
                block == blocks@[count as int],
                len == records@.len(),
                len < usize::MAX,
                countable(records@, blocks@),
                j <= len,
                dp@.len() == len + 1,
                dp_prev@.len() == len + 1,
                max_block == run_len(records@, j - 1),
                max_block <= j,
                forall|t: int|
                    0 <= t <= len ==> dp_prev@[t] == ways(records@, blocks@, count as int, t),
                forall|t: int| 0 <= t <= j ==> dp@[t] == ways(records@, blocks@, count + 1, t),
            decreases len - j,
        {
            let record = records[j];
            let can_place_empty = record != BROKEN;
            let can_place_spring = record != WORKING;
            max_block = if can_place_spring {
                max_block + 1
            } else {
                0
            };
            proof {
                lemma_ways_not_negative(records@, blocks@, count + 1, j as int);
                if j >= block {
                    lemma_ways_not_negative(records@, blocks@, count as int, j - block);
                }
                assert(ways(records@, blocks@, count + 1, j + 1) <= u64::MAX);
            }
            let mut total: u64 = 0;
            if can_place_empty {
                total = dp[j];
            }
            if max_block >= block && j + 1 > block && records[j - block] != BROKEN {
                total += dp_prev[j - block];
            }
            dp[j + 1] = total;
            j += 1;
        }
        core::mem::swap(&mut dp, &mut dp_prev);
        count += 1;
    }
    dp_prev[len]
}

/// Without a block there is one way as long as no spring is known to be
/// broken, and none from the first such spring on.
proof fn lemma_no_blocks(records: Seq<u8>, blocks: Seq<usize>, upto: int)
    requires
        0 <= upto,
    ensures
        ways(records, blocks, 0, upto) == if forall|t: int|
            0 <= t < upto ==> records[t] != BROKEN {
            1int
        } else {
            0int
        },
    decreases upto,
{
    if upto > 0 {
        lemma_no_blocks(records, blocks, upto - 1);
        if forall|t: int| 0 <= t < upto ==> records[t] != BROKEN {
            assert(forall|t: int| 0 <= t < upto - 1 ==> records[t] != BROKEN);
        } else if records[upto - 1] != BROKEN {
            assert(!(forall|t: int| 0 <= t < upto - 1 ==> records[t] != BROKEN));
        }
    }
}

} // verus!
