use vstd::prelude::*;

verus! {

/// Whether a byte is a decimal digit.
pub open spec fn is_digit(byte: u8) -> bool {
    '0' as u8 <= byte <= '9' as u8
}

/// The number that a sequence of decimal digits stands for.
pub open spec fn digits_value(digits: Seq<u8>) -> int
    decreases digits.len(),
{
    if digits.len() == 0 {
        0
    } else {
        digits_value(digits.drop_last()) * 10 + (digits.last() - '0' as u8)
    }
}

/// The digits of a number written with or without a plus sign in front.
pub open spec fn unsigned_digits(text: Seq<u8>) -> Seq<u8> {
    if text.len() > 0 && text[0] == '+' as u8 {
        text.subrange(1, text.len() as int)
    } else {
        text
    }
}

/// Whether `text` is a number of at most `most`, written in decimal: one
/// digit or more, with or without a plus sign in front, and nothing else.
pub open spec fn is_number(text: Seq<u8>, most: int) -> bool {
    &&& unsigned_digits(text).len() > 0
    &&& forall|i: int| 0 <= i < unsigned_digits(text).len() ==> is_digit(#[trigger] unsigned_digits(text)[i])
    &&& digits_value(unsigned_digits(text)) <= most
}

/// The number that `text` stands for.
pub open spec fn number_value(text: Seq<u8>) -> int {
    digits_value(unsigned_digits(text))
}

/// More digits do not make a smaller number.
pub proof fn lemma_digits_value_grows(digits: Seq<u8>, fewer: int)
    requires
        0 <= fewer <= digits.len(),
        forall|i: int| 0 <= i < digits.len() ==> is_digit(#[trigger] digits[i]),
    ensures
        0 <= digits_value(digits.take(fewer)) <= digits_value(digits),
    decreases digits.len(),
{
    if digits.len() > 0 {
        let init = digits.drop_last();
        if fewer < digits.len() {
            assert(init.take(fewer) =~= digits.take(fewer));
            lemma_digits_value_grows(init, fewer);
        } else {
            assert(digits.take(fewer) =~= digits);
            lemma_digits_value_grows(init, fewer - 1);
            assert(init.take(fewer - 1) =~= init);
        }
    } else {
        assert(digits.take(fewer) =~= digits);
    }
}

/// The number that `text` stands for, if it is a number that 64 bits hold.
pub fn parse_u64(text: &[u8]) -> (parsed: Option<u64>)
    ensures
        match parsed {
            Some(value) => is_number(text@, u64::MAX as int) && value == number_value(text@),
            None => !is_number(text@, u64::MAX as int),
        },
{
    let start: usize = if text.len() > 0 && text[0] == '+' as u8 {
        1
    } else {
        0
    };
    let ghost digits = unsigned_digits(text@);
    if start == text.len() {
        return None;
    }
    let mut value: u64 = 0;
    let mut i: usize = start;
    while i < text.len()
        invariant
            start <= i <= text@.len(),
            digits == unsigned_digits(text@),
            digits.len() == text@.len() - start,
            forall|k: int| 0 <= k < digits.len() ==> digits[k] == text@[start + k],
            forall|k: int| 0 <= k < i - start ==> is_digit(#[trigger] digits[k]),
            value == digits_value(digits.take(i - start)),
        decreases text@.len() - i,
    {
        let byte = text[i];
        if !(byte >= '0' as u8 && byte <= '9' as u8) {
            assert(!is_digit(digits[i - start]));
            return None;
        }
        proof {
            assert(digits.take(i - start + 1).drop_last() =~= digits.take(i - start));
            assert(digits.take(i - start + 1).last() == byte);
        }
        let next = match value.checked_mul(10) {
            Some(tenfold) => tenfold.checked_add((byte - '0' as u8) as u64),
            None => None,
        };
        match next {
            Some(more) => {
                value = more;
            },
            None => {
                proof {
                    if forall|k: int| 0 <= k < digits.len() ==> is_digit(#[trigger] digits[k]) {
                        lemma_digits_value_grows(digits, i - start + 1);
                    }
                }
                return None;
            },
        }
        i += 1;
    }
    proof {
        assert(digits.take(i - start) =~= digits);
    }
    Some(value)
}

} // verus!
