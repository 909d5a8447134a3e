use vstd::prelude::*;
use vstd::string::StringSliceAdditionalSpecFns;
use crate::numbers::{is_number, number_value, parse_u64};

verus! {

/// What can be wrong with the line of a game.
#[derive(Debug, Clone, Copy, PartialEq, Eq, Structural)]
pub enum LineError {
    /// The line has no colon with a blank behind it.
    InvalidLine,
    /// An entry of a set has no blank.
    InvalidEntry,
    /// The count of an entry is no number that 32 bits hold.
    NotANumber,
    /// The colour of an entry is not red, green or blue.
    InvalidColor,
    /// A colour that has a count already comes again in a set.
    DuplicateColor,
}

/// `sep` stands in `text` at `at`.
pub open spec fn occurs_at(text: Seq<u8>, sep: Seq<u8>, at: int) -> bool {
    0 <= at && at + sep.len() <= text.len() && text.subrange(at, at + sep.len()) == sep
}

/// `sep` stands in `text` at `at`, and nowhere before.
pub open spec fn first_at(text: Seq<u8>, sep: Seq<u8>, at: int) -> bool {
    occurs_at(text, sep, at) && forall|before: int| 0 <= before < at ==> !occurs_at(text, sep, before)
}

/// The parts of `text` between the places where `sep` stands, found from
/// the left. A text without `sep` is one part.
pub open spec fn split(text: Seq<u8>, sep: Seq<u8>) -> Seq<Seq<u8>>
    decreases text.len(),
{
    if sep.len() > 0 && exists|at: int| first_at(text, sep, at) {
        let at = choose|at: int| first_at(text, sep, at);
        seq![text.take(at)] + split(text.skip(at + sep.len()), sep)
    } else {
        seq![text]
    }
}

/// The first place where `sep` stands is one place only.
pub proof fn lemma_first_at_unique(text: Seq<u8>, sep: Seq<u8>, one: int, other: int)
    requires
        first_at(text, sep, one),
        first_at(text, sep, other),
    ensures
        one == other,
{
}

/// The parts of `text` before and behind the first place where `sep`
/// stands, or nothing where it stands nowhere.
pub(crate) fn split_once<'a>(text: &'a [u8], sep: &[u8]) -> (parts: Option<(&'a [u8], &'a [u8])>)
    requires
        sep@.len() > 0,
    ensures
        match parts {
            Some((head, tail)) => exists|at: int| #[trigger]
                first_at(text@, sep@, at) && head@ == text@.take(at) && tail@ == text@.skip(
                    at + sep@.len(),
                ),
            None => forall|at: int| !occurs_at(text@, sep@, at),
        },
{
    let len = text.len();
    let width = sep.len();
    if width > len {
        return None;
    }
    let mut at: usize = 0;
    while at <= len - width
        invariant
            len == text@.len(),
            width == sep@.len(),
            0 < width <= len,
            at <= len - width + 1,
            forall|before: int| 0 <= before < at ==> !occurs_at(text@, sep@, before),
        decreases len - width + 1 - at,
    {
        let mut same: usize = 0;
        while same < width && text[at + same] == sep[same]
            invariant
                len == text@.len(),
                width == sep@.len(),
                at + width <= len,
                same <= width,
                forall|k: int| 0 <= k < same ==> text@[at + k] == sep@[k],
            decreases width - same,
        {
            same += 1;
        }
        if same == width {
            proof {
                assert(text@.subrange(at as int, at + width) =~= sep@);
                assert(first_at(text@, sep@, at as int));
                assert(text@.subrange(0, at as int) =~= text@.take(at as int));
                assert(text@.subrange(at + width, len as int) =~= text@.skip(at + width));
            }
            return Some((&text[0..at], &text[at + width..len]));
        }
        proof {
            assert(text@.subrange(at as int, at + width)[same as int] == text@[at + same]);
        }
        at += 1;
    }
    None
}

/// The place of a colour among red, green and blue, if `name` names one.
pub open spec fn color_of(name: Seq<u8>) -> Option<int> {
    if name == seq!['r' as u8, 'e' as u8, 'd' as u8] {
        Some(0)
    } else if name == seq!['g' as u8, 'r' as u8, 'e' as u8, 'e' as u8, 'n' as u8] {
        Some(1)
    } else if name == seq!['b' as u8, 'l' as u8, 'u' as u8, 'e' as u8] {
        Some(2)
    } else {
        None
    }
}

/// What an entry of a set says: a count and the place of a colour, with a
/// blank between the two.
pub open spec fn entry_of(entry: Seq<u8>) -> Result<(int, int), LineError> {
    let blank = seq![' ' as u8];
    if !exists|at: int| first_at(entry, blank, at) {
        Err(LineError::InvalidEntry)
    } else {
        let at = choose|at: int| first_at(entry, blank, at);
        let count = entry.take(at);
        let color = entry.skip(at + 1);
        if !is_number(count, u32::MAX as int) {
            Err(LineError::NotANumber)
        } else if color_of(color) is None {
            Err(LineError::InvalidColor)
        } else {
            Ok((number_value(count), color_of(color).unwrap()))
        }
    }
}

/// The counts of red, green and blue after the first `upto` entries of a
/// set, or what is wrong with the first entry that is at fault. A colour
/// that has a count other than 0 may not come again.
pub open spec fn counts_after(entries: Seq<Seq<u8>>, upto: int) -> Result<Seq<u32>, LineError>
    decreases upto,
{
    if upto <= 0 {
        Ok(seq![0u32, 0u32, 0u32])
    } else {
        match counts_after(entries, upto - 1) {
            Err(fault) => Err(fault),
            Ok(counts) => match entry_of(entries[upto - 1]) {
                Err(fault) => Err(fault),
                Ok((count, color)) => if counts[color] != 0 {
                    Err(LineError::DuplicateColor)
                } else {
                    Ok(counts.update(color, count as u32))
                },
            },
        }
    }
}

/// What a set says: the counts of red, green and blue of its entries, which
/// have a comma and a blank between them.
pub open spec fn set_of(set: Seq<u8>) -> Result<Seq<u32>, LineError> {
    let entries = split(set, seq![',' as u8, ' ' as u8]);
    counts_after(entries, entries.len() as int)
}

/// The sets of a game: what stands behind the first colon with a blank
/// behind it, split where a semicolon with a blank behind it stands.
pub open spec fn sets_of(line: Seq<u8>) -> Option<Seq<Seq<u8>>> {
    let colon = seq![':' as u8, ' ' as u8];
    if exists|at: int| first_at(line, colon, at) {
        let at = choose|at: int| first_at(line, colon, at);
        Some(split(line.skip(at + 2), seq![';' as u8, ' ' as u8]))
    } else {
        None
    }
}

/// Whether two texts are the same.
fn same_text(text: &[u8], other: &[u8]) -> (same: bool)
    ensures
        same == (text@ == other@),
{
    if text.len() != other.len() {
        return false;
    }
    let mut i: usize = 0;
    while i < text.len()
        invariant
            text@.len() == other@.len(),
            i <= text@.len(),
            forall|k: int| 0 <= k < i ==> text@[k] == other@[k],
        decreases text@.len() - i,
    {
        if text[i] != other[i] {
            return false;
        }
        i += 1;
    }
    assert(text@ =~= other@);
    true
}

/// What an entry of a set says.
fn read_entry(entry: &[u8]) -> (read: Result<(u32, usize), LineError>)
    ensures
        match read {
            Ok((count, color)) => entry_of(entry@) == Ok::<(int, int), LineError>(
                (count as int, color as int),
            ) && color < 3,
            Err(fault) => entry_of(entry@) == Err::<(int, int), LineError>(fault),
        },
{
    let blank = [' ' as u8];
    assert(blank@ =~= seq![' ' as u8]);
    let (count, color) = match split_once(entry, blank.as_slice()) {
        Some(parts) => parts,
        None => {
            assert forall|at: int| !first_at(entry@, blank@, at) by {}
            return Err(LineError::InvalidEntry);
        },
    };
    proof {
        let found = choose|at: int| #[trigger]
            first_at(entry@, blank@, at) && count@ == entry@.take(at) && color@ == entry@.skip(
                at + blank@.len(),
            );
        let chosen = choose|at: int| first_at(entry@, blank@, at);
        lemma_first_at_unique(entry@, blank@, found, chosen);
    }
    let count = match parse_u64(count) {
        Some(value) => if value <= u32::MAX as u64 {
            value as u32
        } else {
            return Err(LineError::NotANumber);
        },
        None => {
            return Err(LineError::NotANumber);
        },
    };
    let red = ['r' as u8, 'e' as u8, 'd' as u8];
    let green = ['g' as u8, 'r' as u8, 'e' as u8, 'e' as u8, 'n' as u8];
    let blue = ['b' as u8, 'l' as u8, 'u' as u8, 'e' as u8];
    proof {
        assert(red@ =~= seq!['r' as u8, 'e' as u8, 'd' as u8]);
        assert(green@ =~= seq!['g' as u8, 'r' as u8, 'e' as u8, 'e' as u8, 'n' as u8]);
        assert(blue@ =~= seq!['b' as u8, 'l' as u8, 'u' as u8, 'e' as u8]);
    }
    if same_text(color, red.as_slice()) {
        Ok((count, 0))
    } else if same_text(color, green.as_slice()) {
        Ok((count, 1))
    } else if same_text(color, blue.as_slice()) {
        Ok((count, 2))
    } else {
        Err(LineError::InvalidColor)
    }
}

/// What a set says: the counts of red, green and blue.
fn read_set(set: &[u8]) -> (read: Result<[u32; 3], LineError>)
    ensures
        match read {
            Ok(counts) => set_of(set@) == Ok::<Seq<u32>, LineError>(counts@),
            Err(fault) => set_of(set@) == Err::<Seq<u32>, LineError>(fault),
        },
{
    let comma = [',' as u8, ' ' as u8];
    assert(comma@ =~= seq![',' as u8, ' ' as u8]);
    let ghost entries = split(set@, comma@);
    let mut counts: [u32; 3] = [0, 0, 0];
    let mut rest = set;
    let ghost mut done: int = 0;
    assert(counts@ =~= seq![0u32, 0u32, 0u32]);
    loop
        invariant
            comma@ == seq![',' as u8, ' ' as u8],
            entries == split(set@, comma@),
            0 <= done < entries.len(),
            entries == entries.take(done) + split(rest@, comma@),
            counts_after(entries, done) == Ok::<Seq<u32>, LineError>(counts@),
        decreases rest@.len(),
    {
        let (entry, tail) = match split_once(rest, comma.as_slice()) {
            Some((head, tail)) => (head, Some(tail)),
            None => (rest, None),
        };
        proof {
            if tail is Some {
                let found = choose|at: int| #[trigger]
                    first_at(rest@, comma@, at) && entry@ == rest@.take(at) && tail.unwrap()@
                        == rest@.skip(at + comma@.len());
                let chosen = choose|at: int| first_at(rest@, comma@, at);
                lemma_first_at_unique(rest@, comma@, found, chosen);
                assert(split(rest@, comma@) == seq![entry@] + split(tail.unwrap()@, comma@));
            } else {
                assert forall|at: int| !first_at(rest@, comma@, at) by {}
                assert(split(rest@, comma@) == seq![rest@]);
            }
            assert(entries[done] == entry@);
        }
        let (count, color) = match read_entry(entry) {
            Ok(read) => read,
            Err(fault) => {
                proof {
                    lemma_fault_stays(entries, done + 1, entries.len() as int);
                }
                return Err(fault);
            },
        };
        if counts[color] != 0 {
            proof {
                lemma_fault_stays(entries, done + 1, entries.len() as int);
            }
            return Err(LineError::DuplicateColor);
        }
        counts[color] = count;
        proof {
            assert(entries.take(done + 1) =~= entries.take(done).push(entries[done]));
            done = done + 1;
        }
        match tail {
            Some(tail) => {
                proof {
                    assert(entries =~= entries.take(done) + split(tail@, comma@));
                    lemma_split_not_empty(tail@, comma@);
                }
                rest = tail;
            },
            None => {
                proof {
                    assert(entries =~= entries.take(done));
                }
                return Ok(counts);
            },
        }
    }
}

/// Every text has a part.
proof fn lemma_split_not_empty(text: Seq<u8>, sep: Seq<u8>)
    ensures
        split(text, sep).len() >= 1,
{
}

/// Once an entry is at fault, the fault is what the set says.
proof fn lemma_fault_stays(entries: Seq<Seq<u8>>, from: int, upto: int)
    requires
        1 <= from <= upto,
        counts_after(entries, from) is Err,
    ensures
        counts_after(entries, upto) == counts_after(entries, from),
    decreases upto - from,
{
    if from < upto {
        lemma_fault_stays(entries, from, upto - 1);
    }
}

/// What the sets of a game say, one after the other: for each set the
/// counts of red, green and blue, or what is wrong with it.
///
/// A line reads `Game 1: 3 blue, 4 red; 1 red, 2 green`: the sets stand
/// behind the first colon, with semicolons between them, and each holds
/// entries of a count and a colour with commas between them. A line
/// without a colon is an error.
pub fn parse_line(line: &str) -> (parsed: Result<Vec<Result<[u32; 3], LineError>>, LineError>)
    ensures
        match parsed {
            Ok(sets) => sets_of(line.spec_bytes()) is Some && sets@.len() == sets_of(
                line.spec_bytes(),
            ).unwrap().len() && forall|i: int|
                0 <= i < sets@.len() ==> match #[trigger] sets@[i] {
                    Ok(counts) => set_of(sets_of(line.spec_bytes()).unwrap()[i]) == Ok::<
                        Seq<u32>,
                        LineError,
                    >(counts@),
                    Err(fault) => set_of(sets_of(line.spec_bytes()).unwrap()[i]) == Err::<
                        Seq<u32>,
                        LineError,
                    >(fault),
                },
            Err(fault) => fault == LineError::InvalidLine && sets_of(line.spec_bytes()) is None,
        },
{
    let text = line.as_bytes();
    let colon = [':' as u8, ' ' as u8];
    let semicolon = [';' as u8, ' ' as u8];
    proof {
        assert(colon@ =~= seq![':' as u8, ' ' as u8]);
        assert(semicolon@ =~= seq![';' as u8, ' ' as u8]);
    }
    let all = match split_once(text, colon.as_slice()) {
        Some((_, all)) => all,
        None => {
            assert forall|at: int| !first_at(text@, colon@, at) by {}
            return Err(LineError::InvalidLine);
        },
    };
    proof {
        let found = choose|at: int| #[trigger]
            first_at(text@, colon@, at) && all@ == text@.skip(at + colon@.len());
        let chosen = choose|at: int| first_at(text@, colon@, at);
        lemma_first_at_unique(text@, colon@, found, chosen);
    }
    let ghost sets = split(all@, semicolon@);
    let mut read: Vec<Result<[u32; 3], LineError>> = Vec::new();
    let mut rest = all;
    loop
        invariant
            semicolon@ == seq![';' as u8, ' ' as u8],
            text@ == line.spec_bytes(),
            sets_of(text@) == Some(sets),
            sets == split(all@, semicolon@),
            read@.len() < sets.len(),
            sets == sets.take(read@.len() as int) + split(rest@, semicolon@),
            forall|i: int|
                0 <= i < read@.len() ==> match #[trigger] read@[i] {
                    Ok(counts) => set_of(sets[i]) == Ok::<Seq<u32>, LineError>(counts@),
                    Err(fault) => set_of(sets[i]) == Err::<Seq<u32>, LineError>(fault),
                },
        decreases rest@.len(),
    {
        let (set, tail) = match split_once(rest, semicolon.as_slice()) {
            Some((head, tail)) => (head, Some(tail)),
            None => (rest, None),
        };
        let ghost done = read@.len() as int;
        proof {
            if tail is Some {
                let found = choose|at: int| #[trigger]
                    first_at(rest@, semicolon@, at) && set@ == rest@.take(at) && tail.unwrap()@
                        == rest@.skip(at + semicolon@.len());
                let chosen = choose|at: int| first_at(rest@, semicolon@, at);
                lemma_first_at_unique(rest@, semicolon@, found, chosen);
                assert(split(rest@, semicolon@) == seq![set@] + split(
                    tail.unwrap()@,
                    semicolon@,
                ));
            } else {
                assert forall|at: int| !first_at(rest@, semicolon@, at) by {}
                assert(split(rest@, semicolon@) == seq![rest@]);
            }
            assert(sets[done] == set@);
        }
        read.push(read_set(set));
        proof {
            assert(sets.take(done + 1) =~= sets.take(done).push(sets[done]));
        }
        match tail {
            Some(tail) => {
                proof {
                    assert(sets =~= sets.take(done + 1) + split(tail@, semicolon@));
                    lemma_split_not_empty(tail@, semicolon@);
                }
                rest = tail;
            },
            None => {
                proof {
                    assert(sets =~= sets.take(done + 1));
                }
                return Ok(read);
            },
        }
    }
}

} // verus!
