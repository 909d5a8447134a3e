use vstd::prelude::*;
use vstd::string::StringSliceAdditionalSpecFns;

verus! {

/// The English name of a digit from 1 to 9, in bytes.
pub open spec fn digit_name(digit: int) -> Seq<u8> {
    if digit == 1 {
        seq!['o' as u8, 'n' as u8, 'e' as u8]
    } else if digit == 2 {
        seq!['t' as u8, 'w' as u8, 'o' as u8]
    } else if digit == 3 {
        seq!['t' as u8, 'h' as u8, 'r' as u8, 'e' as u8, 'e' as u8]
    } else if digit == 4 {
        seq!['f' as u8, 'o' as u8, 'u' as u8, 'r' as u8]
    } else if digit == 5 {
        seq!['f' as u8, 'i' as u8, 'v' as u8, 'e' as u8]
    } else if digit == 6 {
        seq!['s' as u8, 'i' as u8, 'x' as u8]
    } else if digit == 7 {
        seq!['s' as u8, 'e' as u8, 'v' as u8, 'e' as u8, 'n' as u8]
    } else if digit == 8 {
        seq!['e' as u8, 'i' as u8, 'g' as u8, 'h' as u8, 't' as u8]
    } else {
        seq!['n' as u8, 'i' as u8, 'n' as u8, 'e' as u8]
    }
}

/// The digit that `name` is the English name of, if it is one.
pub open spec fn named_digit(name: Seq<u8>) -> Option<int> {
    if exists|digit: int| 1 <= digit <= 9 && name == #[trigger] digit_name(digit) {
        Some(choose|digit: int| 1 <= digit <= 9 && name == #[trigger] digit_name(digit))
    } else {
        None
    }
}

/// The value of a digit given by name or as a character.
pub open spec fn digit_value(name: Seq<u8>) -> int {
    match named_digit(name) {
        Some(digit) => digit,
        None => name[0] - ('0' as u8),
    }
}

/// No two digits share a name.
pub proof fn lemma_names_differ(first: int, second: int)
    requires
        1 <= first <= 9,
        1 <= second <= 9,
        digit_name(first) == digit_name(second),
    ensures
        first == second,
{
    let a = digit_name(first);
    let b = digit_name(second);
    assert(a.len() == b.len());
    assert(a[0] == b[0]);
    assert(a[1] == b[1]);
    assert(a[2] == b[2]);
}

/// Whether `name` spells `word`, read from the end where `backwards` is set.
fn spells(name: &[u8], word: &[u8], backwards: bool) -> (same: bool)
    ensures
        same == (word@ == if backwards {
            name@.reverse()
        } else {
            name@
        }),
{
    let len = name.len();
    if len != word.len() {
        return false;
    }
    let ghost read = if backwards {
        name@.reverse()
    } else {
        name@
    };
    let mut i: usize = 0;
    while i < len
        invariant
            len == name@.len(),
            len == word@.len(),
            read == if backwards {
                name@.reverse()
            } else {
                name@
            },
            i <= len,
            forall|j: int| 0 <= j < i ==> word@[j] == read[j],
        decreases len - i,
    {
        let at = if backwards {
            len - 1 - i
        } else {
            i
        };
        if name[at] != word[i] {
            assert(read[i as int] != word@[i as int]);
            return false;
        }
        i += 1;
    }
    assert(word@ =~= read);
    true
}

/// The digit whose name `name` spells, forwards or backwards.
fn spelled(name: &[u8], backwards: bool) -> (digit: Option<u32>)
    ensures
        match digit {
            Some(value) => Some(value as int),
            None => None,
        } == named_digit(
            if backwards {
                name@.reverse()
            } else {
                name@
            },
        ),
{
    let ghost read = if backwards {
        name@.reverse()
    } else {
        name@
    };
    let one = ['o' as u8, 'n' as u8, 'e' as u8];
    let two = ['t' as u8, 'w' as u8, 'o' as u8];
    let three = ['t' as u8, 'h' as u8, 'r' as u8, 'e' as u8, 'e' as u8];
    let four = ['f' as u8, 'o' as u8, 'u' as u8, 'r' as u8];
    let five = ['f' as u8, 'i' as u8, 'v' as u8, 'e' as u8];
    let six = ['s' as u8, 'i' as u8, 'x' as u8];
    let seven = ['s' as u8, 'e' as u8, 'v' as u8, 'e' as u8, 'n' as u8];
    let eight = ['e' as u8, 'i' as u8, 'g' as u8, 'h' as u8, 't' as u8];
    let nine = ['n' as u8, 'i' as u8, 'n' as u8, 'e' as u8];
    proof {
        assert(one@ =~= digit_name(1));
        assert(two@ =~= digit_name(2));
        assert(three@ =~= digit_name(3));
        assert(four@ =~= digit_name(4));
        assert(five@ =~= digit_name(5));
        assert(six@ =~= digit_name(6));
        assert(seven@ =~= digit_name(7));
        assert(eight@ =~= digit_name(8));
        assert(nine@ =~= digit_name(9));
        assert forall|first: int, second: int|
            1 <= first <= 9 && 1 <= second <= 9 && #[trigger] digit_name(first)
                == #[trigger] digit_name(second) implies first == second by {
            lemma_names_differ(first, second);
        }
    }
    let found = if spells(name, one.as_slice(), backwards) {
        Some(1u32)
    } else if spells(name, two.as_slice(), backwards) {
        Some(2u32)
    } else if spells(name, three.as_slice(), backwards) {
        Some(3u32)
    } else if spells(name, four.as_slice(), backwards) {
        Some(4u32)
    } else if spells(name, five.as_slice(), backwards) {
        Some(5u32)
    } else if spells(name, six.as_slice(), backwards) {
        Some(6u32)
    } else if spells(name, seven.as_slice(), backwards) {
        Some(7u32)
    } else if spells(name, eight.as_slice(), backwards) {
        Some(8u32)
    } else if spells(name, nine.as_slice(), backwards) {
        Some(9u32)
    } else {
        None
    };
    proof {
        if let Some(value) = found {
            assert(read == digit_name(value as int));
        } else {
            assert forall|digit: int| 1 <= digit <= 9 implies read != #[trigger] digit_name(
                digit,
            ) by {
                assert(digit == 1 || digit == 2 || digit == 3 || digit == 4 || digit == 5 || digit
                    == 6 || digit == 7 || digit == 8 || digit == 9);
            }
        }
    }
    found
}

/// The value of a digit written as `one` to `nine`, or else as a character
/// from `0` on in the first byte of `name`.
pub fn to_digit(name: &str) -> (value: u32)
    requires
        named_digit(name.spec_bytes()) is Some || (name.spec_bytes().len() > 0
            && name.spec_bytes()[0] >= ('0' as u8)),
    ensures
        value == digit_value(name.spec_bytes()),
{
    let bytes = name.as_bytes();
    match spelled(bytes, false) {
        Some(value) => value,
        None => (bytes[0] - ('0' as u8)) as u32,
    }
}

/// The value of a digit whose name is written backwards, as `eno` to `enin`,
/// or else written as a character from `0` on in the first byte of `name`.
pub fn to_digit_rev(name: &str) -> (value: u32)
    requires
        named_digit(name.spec_bytes().reverse()) is Some || (name.spec_bytes().len() > 0
            && name.spec_bytes()[0] >= ('0' as u8)),
    ensures
        value == match named_digit(name.spec_bytes().reverse()) {
            Some(digit) => digit,
            None => name.spec_bytes()[0] - ('0' as u8),
        },
{
    let bytes = name.as_bytes();
    match spelled(bytes, true) {
        Some(value) => value,
        None => (bytes[0] - ('0' as u8)) as u32,
    }
}

} // verus!
