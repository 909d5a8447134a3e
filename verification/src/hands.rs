use vstd::prelude::*;
use vstd::relations::{sorted_by, total_ordering};
use vstd::seq_lib::lemma_sorted_unique;
use itertools::Itertools;

verus! {

/// The number of different cards. A card is a number below this.
pub const NUM_CARDS: usize = 13;

/// The card that counts as any other where jokers are in play.
pub const JOKER: u8 = 9;

/// The kinds of hands, from the weakest to the strongest.
#[derive(Debug, Clone, Copy, PartialEq, Eq, PartialOrd, Ord, Structural)]
pub enum HandType {
    HighCard,
    OnePair,
    TwoPairs,
    ThreeOfAKind,
    FullHouse,
    FourOfAKind,
    FiveOfAKind,
}

/// How often `card` occurs in `hand`.
pub open spec fn count_of(hand: Seq<u8>, card: int) -> nat
    decreases hand.len(),
{
    if hand.len() == 0 {
        0
    } else {
        count_of(hand.drop_last(), card) + if hand.last() == card {
            1nat
        } else {
            0nat
        }
    }
}

/// The number of jokers in `hand`: none where jokers are not in play.
pub open spec fn jokers(hand: Seq<u8>, use_jokers: bool) -> nat {
    if use_jokers {
        count_of(hand, JOKER as int)
    } else {
        0
    }
}

/// For each card how often it occurs in `hand`. Where jokers are in play
/// they are left out of the count.
pub open spec fn card_counts(hand: Seq<u8>, use_jokers: bool) -> Seq<u8> {
    Seq::new(
        NUM_CARDS as nat,
        |card: int|
            if use_jokers && card == JOKER {
                0u8
            } else {
                count_of(hand, card) as u8
            },
    )
}

/// Each item is at most as large as every later one.
pub open spec fn is_ascending(items: Seq<u8>) -> bool {
    forall|i: int, j: int| 0 <= i <= j < items.len() ==> items[i] <= items[j]
}

/// The kind of a hand in which the most frequent card occurs `most` times
/// and the next `next` times, jokers apart. The jokers count as the card
/// that serves the hand best.
pub open spec fn classify(most: int, next: int, jokers: int) -> HandType {
    if jokers == 5 || most + jokers == 5 {
        HandType::FiveOfAKind
    } else if most + jokers == 4 {
        HandType::FourOfAKind
    } else if most <= 3 && next <= 2 && most + next + jokers == 5 {
        HandType::FullHouse
    } else if most + jokers == 3 {
        HandType::ThreeOfAKind
    } else if most + next + jokers == 4 {
        HandType::TwoPairs
    } else if most + jokers == 2 {
        HandType::OnePair
    } else {
        HandType::HighCard
    }
}

/// The kind of `hand` by the counts of its cards put in ascending order.
pub open spec fn kind_by(hand: Seq<u8>, use_jokers: bool, ascending: Seq<u8>) -> HandType {
    classify(
        ascending[NUM_CARDS - 1] as int,
        ascending[NUM_CARDS - 2] as int,
        jokers(hand, use_jokers) as int,
    )
}

/// The counts of a hand can be put in ascending order in one way only, so
/// the kind of a hand does not depend on how they were ordered.
pub proof fn lemma_kind_is_unique(
    hand: Seq<u8>,
    use_jokers: bool,
    first: Seq<u8>,
    second: Seq<u8>,
)
    requires
        is_ascending(first),
        is_ascending(second),
        first.to_multiset() == card_counts(hand, use_jokers).to_multiset(),
        second.to_multiset() == card_counts(hand, use_jokers).to_multiset(),
    ensures
        kind_by(hand, use_jokers, first) == kind_by(hand, use_jokers, second),
{
    let at_most = |a: u8, b: u8| a <= b;
    assert(total_ordering(at_most));
    assert(sorted_by(first, at_most));
    assert(sorted_by(second, at_most));
    lemma_sorted_unique(first, second, at_most);
}

/// The counts in ascending order, as `Itertools::sorted` puts them: the
/// same counts, each as often as before, none larger than a later one.
#[verifier::external_body]
fn ascending(counts: &[u8; 13]) -> (sorted: Vec<u8>)
    ensures
        sorted@.len() == counts@.len(),
        sorted@.to_multiset() == counts@.to_multiset(),
        is_ascending(sorted@),
{
    counts.iter().copied().sorted().collect()
}

impl HandType {
    /// The kind of `hand`. With `use_jokers` every joker counts as the card
    /// that serves the hand best.
    pub fn detect(hand: [u8; 5], use_jokers: bool) -> (kind: HandType)
        requires
            forall|i: int| 0 <= i < 5 ==> hand@[i] < NUM_CARDS,
        ensures
            exists|sorted: Seq<u8>|
                {
                    &&& #[trigger] is_ascending(sorted)
                    &&& sorted.to_multiset() == card_counts(hand@, use_jokers).to_multiset()
                    &&& kind == kind_by(hand@, use_jokers, sorted)
                },
    {
        let mut counts = [0u8; 13];
        let mut i: usize = 0;
        while i < 5
            invariant
                i <= 5,
                forall|k: int| 0 <= k < 5 ==> hand@[k] < NUM_CARDS,
                forall|card: int|
                    0 <= card < NUM_CARDS ==> counts@[card] == count_of(hand@.take(i as int), card),
                forall|card: int| 0 <= card < NUM_CARDS ==> counts@[card] <= i,
            decreases 5 - i,
        {
            proof {
                assert(hand@.take(i + 1).drop_last() =~= hand@.take(i as int));
            }
            let card = hand[i] as usize;
            counts[card] += 1;
            i += 1;
        }
        proof {
            assert(hand@.take(5) =~= hand@);
        }
        let joker_count = if use_jokers {
            let held = counts[JOKER as usize];
            counts[JOKER as usize] = 0;
            held
        } else {
            0
        };
        assert(counts@ =~= card_counts(hand@, use_jokers));
        let sorted = ascending(&counts);
        let most = sorted[12];
        let next = sorted[11];
        proof {
            assert(sorted@.to_multiset().count(most) > 0) by {
                sorted@.to_multiset_ensures();
                assert(sorted@.contains(most));
            }
            assert(counts@.contains(most)) by {
                counts@.to_multiset_ensures();
            }
            assert(sorted@.to_multiset().count(next) > 0) by {
                sorted@.to_multiset_ensures();
                assert(sorted@.contains(next));
            }
            assert(counts@.contains(next)) by {
                counts@.to_multiset_ensures();
            }
        }
        let kind = if joker_count == 5 || most + joker_count == 5 {
            HandType::FiveOfAKind
        } else if most + joker_count == 4 {
            HandType::FourOfAKind
        } else if most <= 3 && next <= 2 && most + next + joker_count == 5 {
            HandType::FullHouse
        } else if most + joker_count == 3 {
            HandType::ThreeOfAKind
        } else if most + next + joker_count == 4 {
            HandType::TwoPairs
        } else if most + joker_count == 2 {
            HandType::OnePair
        } else {
            HandType::HighCard
        };
        assert(is_ascending(sorted@));
        assert(kind == kind_by(hand@, use_jokers, sorted@));
        kind
    }
}

} // verus!
