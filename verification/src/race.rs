use vstd::prelude::*;
use vstd::set_lib::{lemma_int_range, set_int_range};
use vstd::string::StringSliceAdditionalSpecFns;
use crate::numbers::{is_number, number_value, parse_u64};

verus! {

/// Narrows the open interval from `low` to `high` by halving until no
/// number is left in it, moving `high` down to the middle where `pred` holds
/// there and `low` up where it does not, and returns the last `low`.
///
/// The result is `low` or a number at which `pred` failed, and the number
/// after it is `high` or one at which `pred` held. For a `pred` that fails
/// up to some number and holds from there on, that is the last number below
/// `high` at which it fails, or `low` where there is none above `low`.
pub fn binary_search<F: Fn(u64) -> bool>(low: u64, high: u64, pred: F) -> (found: u64)
    requires
        low <= high,
        forall|x: u64| low < x < high ==> call_requires(pred, (x,)),
    ensures
        low <= found <= high,
        low < high ==> found < high,
        found == low || call_ensures(pred, (found,), false),
        found + 1 >= high || call_ensures(pred, ((found + 1) as u64,), true),
{
    let mut low = low;
    let mut high = high;
    let ghost first_low = low;
    let ghost first_high = high;
    while high - low > 1
        invariant
            first_low <= low <= high <= first_high,
            first_low < first_high ==> low < high,
            forall|x: u64| first_low < x < first_high ==> call_requires(pred, (x,)),
            low == first_low || call_ensures(pred, (low,), false),
            high == first_high || call_ensures(pred, (high,), true),
        decreases high - low,
    {
        let mid = low + (high - low) / 2;
        if pred(mid) {
            high = mid;
        } else {
            low = mid;
        }
    }
    low
}

/// The distance covered in a race of `time` when the button is held for
/// `hold`.
pub open spec fn travelled(time: int, hold: int) -> int {
    hold * (time - hold)
}

/// The ways of holding the button that cover more than `distance`.
pub open spec fn winning_holds(time: int, distance: int) -> Set<int> {
    Set::new(|hold: int| 0 <= hold <= time && travelled(time, hold) > distance)
}

/// Up to half the time a longer hold covers no less, and from there on no
/// more.
proof fn lemma_travelled_bends(time: int, shorter: int, longer: int)
    requires
        0 <= shorter <= longer <= time,
    ensures
        longer <= time / 2 ==> travelled(time, shorter) <= travelled(time, longer),
        time / 2 <= shorter ==> travelled(time, shorter) >= travelled(time, longer),
        0 <= travelled(time, shorter),
        travelled(time, shorter) <= travelled(time, time / 2),
{
    let half = time / 2;
    assert(longer <= half ==> travelled(time, shorter) <= travelled(time, longer))
        by (nonlinear_arith)
        requires
            0 <= shorter <= longer <= time,
            2 * half <= time,
    ;
    assert(half <= shorter ==> travelled(time, shorter) >= travelled(time, longer))
        by (nonlinear_arith)
        requires
            0 <= shorter <= longer <= time,
            2 * half + 1 >= time,
    ;
    assert(0 <= travelled(time, shorter)) by (nonlinear_arith)
        requires
            0 <= shorter <= time,
    ;
    assert(travelled(time, shorter) <= travelled(time, half)) by (nonlinear_arith)
        requires
            0 <= shorter <= time,
            2 * half <= time <= 2 * half + 1,
    ;
}

/// The number of whole hold times from 0 to `time` with which a race of
/// `time` covers more than `distance`.
pub fn count_ways_to_beat(time: u64, distance: u64) -> (ways: u64)
    requires
        time < u64::MAX,
        travelled(time as int, time as int / 2) <= u64::MAX,
    ensures
        winning_holds(time as int, distance as int).finite(),
        ways == winning_holds(time as int, distance as int).len(),
{
    let mid = time / 2;
    if mid * (time - mid) <= distance {
        proof {
            assert forall|hold: int| 0 <= hold <= time implies travelled(time as int, hold)
                <= distance by {
                lemma_travelled_bends(time as int, hold, hold);
            }
            assert(winning_holds(time as int, distance as int) =~= Set::empty());
        }
        return 0;
    }
    let wins = |x: u64| -> (won: bool)
        requires
            x <= time,
        ensures
            won == (travelled(time as int, x as int) > distance),
        {
            proof {
                lemma_travelled_bends(time as int, x as int, x as int);
            }
            x * (time - x) > distance
        };
    let loses = |x: u64| -> (lost: bool)
        requires
            x <= time,
        ensures
            lost == (travelled(time as int, x as int) <= distance),
        {
            proof {
                lemma_travelled_bends(time as int, x as int, x as int);
            }
            x * (time - x) <= distance
        };
    let low = binary_search(0, mid, wins);
    let high = binary_search(mid, time + 1, loses);
    proof {
        let t = time as int;
        let d = distance as int;
        assert(travelled(t, 0) == 0) by (nonlinear_arith);
        assert(travelled(t, t) == 0) by (nonlinear_arith);
        assert(travelled(t, low as int) <= d);
        assert(travelled(t, low + 1) > d);
        assert(travelled(t, high as int) > d);
        assert(high < time);
        assert(travelled(t, high + 1) <= d);
        assert forall|hold: int| winning_holds(t, d).contains(hold) <==> set_int_range(
            low + 1,
            high + 1,
        ).contains(hold) by {
            if 0 <= hold <= t {
                if hold <= low {
                    lemma_travelled_bends(t, hold, low as int);
                } else if hold <= mid {
                    lemma_travelled_bends(t, low + 1, hold);
                } else if hold <= high {
                    lemma_travelled_bends(t, hold, high as int);
                } else {
                    lemma_travelled_bends(t, high + 1, hold);
                }
            }
        }
        assert(winning_holds(t, d) =~= set_int_range(low + 1, high + 1));
        lemma_int_range(low + 1, high + 1);
    }
    high - low
}

/// What can be wrong with a line of numbers.
#[derive(Debug, Clone, Copy, PartialEq, Eq, Structural)]
pub enum ReadError {
    /// The line has no colon.
    NoColon,
    /// Something behind the colon is no number that 64 bits hold.
    NotANumber,
}

/// Whether a byte is white space: a blank, a tab, a line feed, a form feed
/// or a carriage return.
pub open spec fn is_space(byte: u8) -> bool {
    byte == 32 || byte == 9 || byte == 10 || byte == 12 || byte == 13
}

/// The number of bytes at the start of `text` up to the first white space.
pub open spec fn field_len(text: Seq<u8>) -> int
    decreases text.len(),
{
    if text.len() == 0 || is_space(text[0]) {
        0
    } else {
        1 + field_len(text.skip(1))
    }
}

/// The fields of `text`: the longest runs of bytes without white space.
pub open spec fn fields(text: Seq<u8>) -> Seq<Seq<u8>>
    decreases text.len(),
    via fields_decreases
{
    if text.len() == 0 {
        Seq::empty()
    } else if is_space(text[0]) {
        fields(text.skip(1))
    } else {
        seq![text.take(field_len(text))] + fields(text.skip(field_len(text)))
    }
}

/// A field that starts with a byte that is no white space has a byte.
#[via_fn]
proof fn fields_decreases(text: Seq<u8>) {
    if text.len() > 0 && !is_space(text[0]) {
        lemma_field_len(text, 1);
    }
}

/// A run of `run` bytes without white space at the start of `text`, with
/// white space or nothing behind it, is the first field of `text`.
proof fn lemma_field_len(text: Seq<u8>, run: int)
    requires
        0 <= run <= text.len(),
        forall|i: int| 0 <= i < run ==> !is_space(#[trigger] text[i]),
    ensures
        run <= field_len(text) <= text.len(),
        run == text.len() || is_space(text[run]) ==> field_len(text) == run,
    decreases text.len(),
{
    if text.len() > 0 && !is_space(text[0]) {
        let rest = text.skip(1);
        if run > 0 {
            assert forall|i: int| 0 <= i < run - 1 implies !is_space(#[trigger] rest[i]) by {
                assert(rest[i] == text[i + 1]);
            }
            lemma_field_len(rest, run - 1);
            if run < text.len() {
                assert(rest[run - 1] == text[run]);
            }
        } else {
            lemma_field_len(rest, 0);
        }
    }
}

/// White space at the start of a text does not change its fields.
proof fn lemma_fields_skip(text: Seq<u8>, from: int, to: int)
    requires
        0 <= from <= to <= text.len(),
        forall|i: int| from <= i < to ==> is_space(#[trigger] text[i]),
    ensures
        fields(text.skip(from)) == fields(text.skip(to)),
    decreases to - from,
{
    if from < to {
        let here = text.skip(from);
        assert(here[0] == text[from]);
        assert(here.skip(1) =~= text.skip(from + 1));
        lemma_fields_skip(text, from + 1, to);
    }
}

/// A run of bytes without white space, with white space or nothing behind
/// it, is the first of the fields from where it starts.
proof fn lemma_fields_first(text: Seq<u8>, from: int, to: int)
    requires
        0 <= from < to <= text.len(),
        forall|i: int| from <= i < to ==> !is_space(#[trigger] text[i]),
        to == text.len() || is_space(text[to]),
    ensures
        fields(text.skip(from)) == seq![text.subrange(from, to)] + fields(text.skip(to)),
{
    let here = text.skip(from);
    assert forall|i: int| 0 <= i < to - from implies !is_space(#[trigger] here[i]) by {
        assert(here[i] == text[from + i]);
    }
    if to < text.len() {
        assert(here[to - from] == text[to]);
    }
    lemma_field_len(here, to - from);
    assert(here.take(to - from) =~= text.subrange(from, to));
    assert(here.skip(to - from) =~= text.skip(to));
}

/// Where the first colon of a line is.
pub open spec fn first_colon(line: Seq<u8>, at: int) -> bool {
    &&& 0 <= at < line.len()
    &&& line[at] == ':' as u8
    &&& forall|i: int| 0 <= i < at ==> line[i] != ':' as u8
}

/// The numbers that `values` holds are the numbers that the fields of
/// `text` stand for.
pub open spec fn holds_numbers(values: Seq<u64>, text: Seq<u8>) -> bool {
    &&& values.len() == fields(text).len()
    &&& forall|i: int|
        0 <= i < values.len() ==> is_number(#[trigger] fields(text)[i], u64::MAX as int)
            && values[i] == number_value(fields(text)[i])
}

/// The numbers behind the first colon of a line. They are set apart by white
/// space, and each is written in decimal, with or without a plus sign in
/// front.
pub fn read_line(line: &str) -> (read: Result<Vec<u64>, ReadError>)
    ensures
        match read {
            Ok(values) => exists|at: int| #[trigger]
                first_colon(line.spec_bytes(), at) && holds_numbers(
                    values@,
                    line.spec_bytes().skip(at + 1),
                ),
            Err(ReadError::NoColon) => forall|i: int|
                0 <= i < line.spec_bytes().len() ==> line.spec_bytes()[i] != ':' as u8,
            Err(ReadError::NotANumber) => exists|at: int, i: int| #[trigger]
                first_colon(line.spec_bytes(), at) && 0 <= i < fields(
                    line.spec_bytes().skip(at + 1),
                ).len() && !is_number(
                    #[trigger] fields(line.spec_bytes().skip(at + 1))[i],
                    u64::MAX as int,
                ),
        },
{
    let bytes = line.as_bytes();
    let len = bytes.len();
    let mut at: usize = 0;
    while at < len && bytes[at] != ':' as u8
        invariant
            at <= len,
            len == bytes@.len(),
            forall|i: int| 0 <= i < at ==> bytes@[i] != ':' as u8,
        decreases len - at,
    {
        at += 1;
    }
    if at == len {
        return Err(ReadError::NoColon);
    }
    assert(first_colon(bytes@, at as int));
    let ghost text = bytes@.skip(at + 1);
    let ghost all = fields(text);
    let first = at + 1;
    let mut values: Vec<u64> = Vec::new();
    let mut pos: usize = first;
    let mut start: usize = first;
    proof {
        assert(text.skip(0) =~= text);
        assert(all =~= all.take(0) + fields(text.skip(start - first)));
    }
    while pos < len
        invariant
            bytes@ == line.spec_bytes(),
            first == at + 1,
            first <= start <= pos <= len,
            len == bytes@.len(),
            text == bytes@.skip(at + 1),
            all == fields(text),
            first_colon(bytes@, at as int),
            forall|i: int| start <= i < pos ==> !is_space(#[trigger] bytes@[i]),
            values@.len() <= all.len(),
            forall|i: int|
                0 <= i < values@.len() ==> is_number(#[trigger] all[i], u64::MAX as int)
                    && values@[i] == number_value(all[i]),
            all == all.take(values@.len() as int) + fields(text.skip(start - first)),
        decreases len - pos,
    {
        let byte = bytes[pos];
        if byte == 32 || byte == 9 || byte == 10 || byte == 12 || byte == 13 {
            if start < pos {
                proof {
                    assert forall|i: int| start - first <= i < pos - first implies !is_space(
                        #[trigger] text[i],
                    ) by {
                        assert(text[i] == bytes@[first + i]);
                    }
                    assert(text[pos - first] == bytes@[pos as int]);
                    lemma_fields_first(text, start - first, pos - first);
                    assert(text.subrange(start - first, pos - first) =~= bytes@.subrange(
                        start as int,
                        pos as int,
                    ));
                }
                let ghost field = bytes@.subrange(start as int, pos as int);
                proof {
                    let n = values@.len() as int;
                    assert((all.take(n) + (seq![field] + fields(text.skip(pos - first))))[n]
                        == field);
                    assert(all[n] == field);
                }
                match parse_u64(&bytes[start..pos]) {
                    Some(value) => {
                        values.push(value);
                    },
                    None => {
                        assert(!is_number(all[values@.len() as int], u64::MAX as int));
                        return Err(ReadError::NotANumber);
                    },
                }
                proof {
                    let n = values@.len() as int;
                    assert(all.take(n) =~= all.take(n - 1).push(all[n - 1]));
                    lemma_fields_skip(text, pos - first, pos + 1 - first);
                    assert(all =~= all.take(n) + fields(text.skip(pos + 1 - first)));
                }
            } else {
                proof {
                    assert(text[pos - first] == bytes@[pos as int]);
                    lemma_fields_skip(text, pos - first, pos + 1 - first);
                }
            }
            start = pos + 1;
        }
        pos += 1;
    }
    if start < len {
        proof {
            assert forall|i: int| start - first <= i < len - first implies !is_space(
                #[trigger] text[i],
            ) by {
                assert(text[i] == bytes@[first + i]);
            }
            lemma_fields_first(text, start - first, len - first);
            assert(text.subrange(start - first, len - first) =~= bytes@.subrange(
                start as int,
                len as int,
            ));
            assert(text.skip(len - first).len() == 0);
        }
        let ghost field = bytes@.subrange(start as int, len as int);
        proof {
            let n = values@.len() as int;
            assert((all.take(n) + (seq![field] + fields(text.skip(len - first))))[n] == field);
            assert(all[n] == field);
        }
        match parse_u64(&bytes[start..len]) {
            Some(value) => {
                values.push(value);
            },
            None => {
                assert(!is_number(all[values@.len() as int], u64::MAX as int));
                return Err(ReadError::NotANumber);
            },
        }
        proof {
            let n = values@.len() as int;
            assert(all.take(n) =~= all.take(n - 1).push(all[n - 1]));
            assert(all =~= all.take(n));
        }
    } else {
        proof {
            assert(text.skip(start - first).len() == 0);
            assert(all =~= all.take(values@.len() as int));
        }
    }
    Ok(values)
}

} // verus!
