use vstd::prelude::*;
use vstd::string::StringSliceAdditionalSpecFns;
use crate::numbers::{is_number, number_value, parse_u64};

verus! {

/// The first two coordinates of a point are less than this.
pub const X_Y_BOUND: usize = 10;

/// A point in space.
#[derive(Debug, Clone, Copy, Default, PartialEq, Eq, PartialOrd, Ord, Hash)]
pub struct Point {
    pub x: usize,
    pub y: usize,
    pub z: usize,
}

/// What can be wrong with a point that is written as text.
#[derive(Debug, Clone, Copy, PartialEq, Eq, Structural)]
pub enum PointError {
    /// There are fewer or more than three coordinates.
    WrongCount,
    /// A coordinate is no number that the machine word holds.
    NotANumber,
    /// The first coordinate is 10 or more.
    XOutOfRange,
    /// The second coordinate is 10 or more.
    YOutOfRange,
}

/// The number of bytes of `text` before its first comma, or its length
/// where it has none.
pub open spec fn piece_len(text: Seq<u8>) -> int
    decreases text.len(),
{
    if text.len() == 0 || text[0] == ',' as u8 {
        0
    } else {
        1 + piece_len(text.skip(1))
    }
}

/// The pieces of `text` between its commas. A text without a comma is one
/// piece, and a piece can be empty.
pub open spec fn pieces(text: Seq<u8>) -> Seq<Seq<u8>>
    decreases text.len(),
    via pieces_decreases
{
    if piece_len(text) >= text.len() {
        seq![text]
    } else {
        seq![text.take(piece_len(text))] + pieces(text.skip(piece_len(text) + 1))
    }
}

/// What lies behind a comma is shorter than the whole.
#[via_fn]
proof fn pieces_decreases(text: Seq<u8>) {
    lemma_piece_len(text, 0);
}

/// A run of `run` bytes without a comma at the start of `text`, with a
/// comma or nothing behind it, is the first piece of `text`.
proof fn lemma_piece_len(text: Seq<u8>, run: int)
    requires
        0 <= run <= text.len(),
        forall|i: int| 0 <= i < run ==> #[trigger] text[i] != ',' as u8,
    ensures
        run <= piece_len(text) <= text.len(),
        run == text.len() || text[run] == ',' as u8 ==> piece_len(text) == run,
    decreases text.len(),
{
    if text.len() > 0 && text[0] != ',' as u8 {
        let rest = text.skip(1);
        if run > 0 {
            assert forall|i: int| 0 <= i < run - 1 implies #[trigger] rest[i] != ',' as u8 by {
                assert(rest[i] == text[i + 1]);
            }
            lemma_piece_len(rest, run - 1);
            if run < text.len() {
                assert(rest[run - 1] == text[run]);
            }
        } else {
            lemma_piece_len(rest, 0);
        }
    }
}

/// Where the piece that starts at `from` ends: at the next comma, or at the
/// end of the text.
fn piece_end(text: &[u8], from: usize) -> (end: usize)
    requires
        from <= text@.len(),
    ensures
        from <= end <= text@.len(),
        end - from == piece_len(text@.skip(from as int)),
        end < text@.len() ==> text@[end as int] == ',' as u8,
{
    let mut end = from;
    while end < text.len() && text[end] != ',' as u8
        invariant
            from <= end <= text@.len(),
            forall|i: int| from <= i < end ==> #[trigger] text@[i] != ',' as u8,
        decreases text@.len() - end,
    {
        end += 1;
    }
    proof {
        let rest = text@.skip(from as int);
        assert forall|i: int| 0 <= i < end - from implies #[trigger] rest[i] != ',' as u8 by {
            assert(rest[i] == text@[from + i]);
        }
        if end < text.len() {
            assert(rest[end - from] == text@[end as int]);
        }
        lemma_piece_len(rest, end - from);
    }
    end
}

/// The number that `text` stands for, if it is a number that the machine
/// word holds.
fn parse_usize(text: &[u8]) -> (parsed: Option<usize>)
    ensures
        match parsed {
            Some(value) => is_number(text@, usize::MAX as int) && value == number_value(text@),
            None => !is_number(text@, usize::MAX as int),
        },
{
    match parse_u64(text) {
        Some(value) => if value <= usize::MAX as u64 {
            Some(value as usize)
        } else {
            None
        },
        None => None,
    }
}

/// What `text` says of a point: the point, or what is wrong with the text.
///
/// The text holds three coordinates with commas between them. Where their
/// number is right, the first fault counts: a first or second coordinate
/// that is no number, then one that is 10 or more, then a third that is no
/// number.
pub open spec fn point_of(text: Seq<u8>) -> Result<(int, int, int), PointError> {
    let coordinates = pieces(text);
    if coordinates.len() != 3 {
        Err(PointError::WrongCount)
    } else if !is_number(coordinates[0], usize::MAX as int) || !is_number(
        coordinates[1],
        usize::MAX as int,
    ) {
        Err(PointError::NotANumber)
    } else if number_value(coordinates[0]) >= X_Y_BOUND {
        Err(PointError::XOutOfRange)
    } else if number_value(coordinates[1]) >= X_Y_BOUND {
        Err(PointError::YOutOfRange)
    } else if !is_number(coordinates[2], usize::MAX as int) {
        Err(PointError::NotANumber)
    } else {
        Ok((number_value(coordinates[0]), number_value(coordinates[1]), number_value(coordinates[2])))
    }
}

impl Point {
    /// The point that `s` stands for: three numbers with commas between
    /// them, the first two less than 10.
    pub fn from_str(s: &str) -> (parsed: Result<Point, PointError>)
        ensures
            match parsed {
                Ok(point) => point_of(s.spec_bytes()) == Ok::<(int, int, int), PointError>(
                    (point.x as int, point.y as int, point.z as int),
                ),
                Err(fault) => point_of(s.spec_bytes()) == Err::<(int, int, int), PointError>(fault),
            },
    {
        let text = s.as_bytes();
        let len = text.len();
        let ghost all = pieces(text@);
        let first = piece_end(text, 0);
        proof {
            assert(text@.skip(0) =~= text@);
        }
        if first == len {
            assert(all.len() == 1);
            return Err(PointError::WrongCount);
        }
        let second = piece_end(text, first + 1);
        let ghost behind_first = text@.skip(first + 1);
        if second == len {
            proof {
                assert(pieces(behind_first).len() == 1);
                assert(all.len() == 2);
            }
            return Err(PointError::WrongCount);
        }
        let third = piece_end(text, second + 1);
        let ghost behind_second = text@.skip(second + 1);
        proof {
            assert(behind_first.skip(second - first) =~= behind_second);
            assert(behind_first.take(second - first - 1) =~= text@.subrange(
                first + 1,
                second as int,
            ));
            assert(text@.take(first as int) =~= text@.subrange(0, first as int));
            assert(pieces(behind_first) == seq![text@.subrange(first + 1, second as int)] + pieces(
                behind_second,
            ));
        }
        if third != len {
            proof {
                let behind_third = behind_second.skip(third - second);
                assert(pieces(behind_second).len() == 1 + pieces(behind_third).len());
                lemma_pieces_not_empty(behind_third);
            }
            return Err(PointError::WrongCount);
        }
        proof {
            assert(pieces(behind_second) == seq![behind_second]);
            assert(behind_second =~= text@.subrange(second + 1, len as int));
            assert(all =~= seq![
                text@.subrange(0, first as int),
                text@.subrange(first + 1, second as int),
                text@.subrange(second + 1, len as int),
            ]);
        }
        let x = parse_usize(&text[0..first]);
        let y = parse_usize(&text[first + 1..second]);
        let z = parse_usize(&text[second + 1..len]);
        let x = match x {
            Some(x) => x,
            None => {
                return Err(PointError::NotANumber);
            },
        };
        let y = match y {
            Some(y) => y,
            None => {
                return Err(PointError::NotANumber);
            },
        };
        if x >= X_Y_BOUND {
            return Err(PointError::XOutOfRange);
        }
        if y >= X_Y_BOUND {
            return Err(PointError::YOutOfRange);
        }
        match z {
            Some(z) => Ok(Point { x, y, z }),
            None => Err(PointError::NotANumber),
        }
    }
}

/// Every text has a piece.
proof fn lemma_pieces_not_empty(text: Seq<u8>)
    ensures
        pieces(text).len() >= 1,
{
    lemma_piece_len(text, 0);
}

} // verus!
