//! The strength of a hand of five cards, and the best strength among the
//! hands of five out of a larger set of cards.
use vstd::prelude::*;
use crate::card::{
    checked_prime_prod_from_rank, hand_product, is_card, lemma_hand_product_fits,
    prime_prod_from_pbits, rank_set_product, Card,
};
use crate::combinations::{
    ascending, combinations, combinations_of, lemma_binomial_positive, lemma_combinations_are_picks,
    lemma_combinations_drawn, lemma_combinations_len, lemma_picks_are_combinations, pick, rows,
};
use crate::coverage::{is_hand, lemma_every_board_has_a_strength};
use crate::lookup::{flush_table, unsuited_table, LookupTables};
use crate::ranking::{best_strength, hand_rank, lemma_strength_follows_rank, worst_strength};

verus! {

/// Why a hand has no strength.
#[derive(Clone, Copy, PartialEq, Eq, Debug)]
pub enum EvalError {
    /// The hand is not of five cards, or the board is of fewer than five.
    MalformedHandSize,
    /// The tables hold nothing under the fingerprint of the hand.
    MissingLookupEntry,
}

/// The bits that all of the cards share, among the four suit bits.
pub open spec fn shared_suits(cards: Seq<Card>) -> u32
    decreases cards.len(),
{
    if cards.len() == 0 {
        0xF000
    } else {
        shared_suits(cards.drop_last()) & cards.last()
    }
}

/// The bits that any of the cards has.
pub open spec fn united_bits(cards: Seq<Card>) -> u32
    decreases cards.len(),
{
    if cards.len() == 0 {
        0
    } else {
        united_bits(cards.drop_last()) | cards.last()
    }
}

/// Whether all of the cards are of one suit.
pub open spec fn is_flush(cards: Seq<Card>) -> bool {
    shared_suits(cards) & 0xF000 != 0
}

/// The fingerprint of the ranks of a flush.
pub open spec fn flush_fingerprint(cards: Seq<Card>) -> nat {
    rank_set_product(united_bits(cards) >> 16)
}

/// What a table holds under a fingerprint; a fingerprint that the table
/// does not hold is an error.
pub open spec fn resolve(table: Map<u32, u32>, fingerprint: nat) -> Result<u32, EvalError> {
    if fingerprint <= u32::MAX && table.contains_key(fingerprint as u32) {
        Ok(table[fingerprint as u32])
    } else {
        Err(EvalError::MissingLookupEntry)
    }
}

/// The strength of a hand: that of its ranks in the flush table where the
/// five cards share a suit, else that of its ranks in the unsuited table.
pub open spec fn hand_strength(cards: Seq<Card>) -> Result<u32, EvalError> {
    if cards.len() != 5 {
        Err(EvalError::MalformedHandSize)
    } else if is_flush(cards) {
        resolve(flush_table(), flush_fingerprint(cards))
    } else {
        resolve(unsuited_table(), hand_product(cards))
    }
}

/// Whether `best` is the least strength among the hands, each of which
/// has one.
pub open spec fn is_best(hands: Seq<Seq<Card>>, best: u32) -> bool {
    &&& exists|i: int| 0 <= i < hands.len() && hand_strength(hands[i]) == Ok::<u32, EvalError>(best)
    &&& forall|i: int|
        0 <= i < hands.len() ==> match #[trigger] hand_strength(hands[i]) {
            Ok(strength) => best <= strength,
            Err(_) => false,
        }
}

/// Whether one of the hands has no strength.
pub open spec fn some_hand_fails(hands: Seq<Seq<Card>>) -> bool {
    exists|i: int| 0 <= i < hands.len() && #[trigger] hand_strength(hands[i]) is Err
}

/// The strength of a board: the least strength among its hands of five
/// cards, taken at ascending places.
pub open spec fn board_strength(cards: Seq<Card>) -> Result<u32, EvalError> {
    if cards.len() < 5 {
        Err(EvalError::MalformedHandSize)
    } else if some_hand_fails(combinations_of(cards, 5)) {
        Err(EvalError::MissingLookupEntry)
    } else {
        Ok(choose|best: u32| is_best(combinations_of(cards, 5), best))
    }
}

/// No two strengths are the best among the same hands.
pub proof fn lemma_best_is_unique(hands: Seq<Seq<Card>>, a: u32, b: u32)
    requires
        is_best(hands, a),
        is_best(hands, b),
    ensures
        a == b,
{
    let i = choose|i: int| 0 <= i < hands.len() && hand_strength(hands[i]) == Ok::<u32, EvalError>(a);
    let j = choose|j: int| 0 <= j < hands.len() && hand_strength(hands[j]) == Ok::<u32, EvalError>(b);
    assert(hand_strength(hands[i]) is Ok);
    assert(hand_strength(hands[j]) is Ok);
}

/// Among hands that all have a strength, and of which there is one, one
/// strength is the best.
pub proof fn lemma_best_exists(hands: Seq<Seq<Card>>)
    requires
        hands.len() > 0,
        !some_hand_fails(hands),
    ensures
        exists|best: u32| is_best(hands, best),
    decreases hands.len(),
{
    let last = hands.last();
    assert(hand_strength(hands[hands.len() - 1]) is Ok);
    let strength = hand_strength(last).unwrap();
    if hands.len() == 1 {
        assert(is_best(hands, strength));
    } else {
        let before = hands.drop_last();
        assert(!some_hand_fails(before)) by {
            if some_hand_fails(before) {
                let i = choose|i: int|
                    0 <= i < before.len() && #[trigger] hand_strength(before[i]) is Err;
                assert(hand_strength(hands[i]) is Err);
            }
        }
        lemma_best_exists(before);
        let earlier = choose|best: u32| is_best(before, best);
        let at = choose|i: int|
            0 <= i < before.len() && hand_strength(before[i]) == Ok::<u32, EvalError>(earlier);
        assert(hands[at] == before[at]);
        let best = if strength < earlier {
            strength
        } else {
            earlier
        };
        assert(is_best(hands, best)) by {
            assert forall|i: int| 0 <= i < hands.len() implies match #[trigger] hand_strength(
                hands[i],
            ) {
                Ok(s) => best <= s,
                Err(_) => false,
            } by {
                if i < before.len() {
                    assert(hands[i] == before[i]);
                }
            }
        }
    }
}

/// The strength of a board is that of one of its hands of five cards at
/// ascending places, and no such hand has a smaller one.
pub proof fn lemma_board_strength_is_least(cards: Seq<Card>, best: u32)
    requires
        board_strength(cards) == Ok::<u32, EvalError>(best),
    ensures
        forall|places: Seq<int>|
            places.len() == 5 && ascending(places, cards.len() as int) ==> match #[trigger] hand_strength(
                pick(cards, places),
            ) {
                Ok(strength) => best <= strength,
                Err(_) => false,
            },
        exists|places: Seq<int>|
            places.len() == 5 && ascending(places, cards.len() as int) && hand_strength(
                pick(cards, places),
            ) == Ok::<u32, EvalError>(best),
{
    let hands = combinations_of(cards, 5);
    lemma_combinations_len(cards, 5);
    lemma_binomial_positive(cards.len(), 5);
    lemma_best_exists(hands);
    assert(is_best(hands, best));
    assert forall|places: Seq<int>|
        places.len() == 5 && ascending(places, cards.len() as int) implies match #[trigger] hand_strength(
        pick(cards, places),
    ) {
        Ok(strength) => best <= strength,
        Err(_) => false,
    } by {
        lemma_picks_are_combinations(cards, places);
        let i = choose|i: int| 0 <= i < hands.len() && hands[i] == pick(cards, places);
        assert(hand_strength(hands[i]) is Ok);
    }
    let at = choose|i: int| 0 <= i < hands.len() && hand_strength(hands[i]) == Ok::<u32, EvalError>(best);
    let places = lemma_combinations_are_picks(cards, 5, at);
    assert(places.len() == 5 && ascending(places, cards.len() as int) && hand_strength(
        pick(cards, places),
    ) == Ok::<u32, EvalError>(best));
}

/// Whether the cards share a suit.
pub fn check_flush(cards: &[Card]) -> (flush: bool)
    ensures
        flush == is_flush(cards@),
{
    let mut card_holder: u32 = 0xF000;
    let mut i: usize = 0;
    while i < cards.len()
        invariant
            i <= cards@.len(),
            card_holder == shared_suits(cards@.take(i as int)),
        decreases cards@.len() - i,
    {
        proof {
            assert(cards@.take(i + 1).drop_last() =~= cards@.take(i as int));
        }
        card_holder = card_holder & cards[i];
        i += 1;
    }
    proof {
        assert(cards@.take(cards@.len() as int) =~= cards@);
    }
    card_holder & 0xF000 != 0
}

/// The strength of a hand of five cards; the lower, the stronger.
///
/// A hand of another size is refused, and so is one whose fingerprint the
/// tables do not hold. Five well-formed cards of which no two are the same
/// always have a strength, and it lies in the band of the rank of the
/// hand.
pub fn evaluate_hand(tables: &LookupTables, cards: Vec<u32>) -> (strength: Result<u32, EvalError>)
    ensures
        strength == hand_strength(cards@),
        is_hand(cards@) ==> match strength {
            Ok(value) => best_strength(hand_rank(cards@)) <= value <= worst_strength(
                hand_rank(cards@),
            ),
            Err(_) => false,
        },
{
    proof {
        if is_hand(cards@) {
            lemma_strength_follows_rank(cards@);
        }
    }
    if cards.len() != 5 {
        return Err(EvalError::MalformedHandSize);
    }
    if check_flush(cards.as_slice()) {
        let mut united: u32 = 0;
        let mut i: usize = 0;
        while i < cards.len()
            invariant
                i <= cards@.len(),
                united == united_bits(cards@.take(i as int)),
            decreases cards@.len() - i,
        {
            proof {
                assert(cards@.take(i + 1).drop_last() =~= cards@.take(i as int));
            }
            united = united | cards[i];
            i += 1;
        }
        proof {
            assert(cards@.take(cards@.len() as int) =~= cards@);
        }
        let hand = united >> 16u32;
        match checked_prime_prod_from_rank(hand) {
            Some(prime_val) => match tables.flush_strength(prime_val) {
                Some(strength) => Ok(strength),
                None => Err(EvalError::MissingLookupEntry),
            },
            None => Err(EvalError::MissingLookupEntry),
        }
    } else {
        proof {
            lemma_hand_product_fits(cards@);
        }
        let key: u32 = prime_prod_from_pbits(cards);
        match tables.unsuited_strength(key) {
            Some(strength) => Ok(strength),
            None => Err(EvalError::MissingLookupEntry),
        }
    }
}

/// The best strength among all hands of five of the given cards.
///
/// Fewer than five cards are refused, and so is a board with a hand whose
/// fingerprint the tables do not hold.
pub fn evaluate_board(tables: &LookupTables, cards: Vec<u32>) -> (strength: Result<
    u32,
    EvalError,
>)
    ensures
        strength == board_strength(cards@),
        cards@.len() >= 5 ==> match strength {
            Ok(best) => is_best(combinations_of(cards@, 5), best),
            Err(error) => error == EvalError::MissingLookupEntry,
        },
        cards@.len() >= 5 && cards@.no_duplicates() && (forall|i: int|
            0 <= i < cards@.len() ==> is_card(#[trigger] cards@[i])) ==> strength is Ok,
{
    let ghost well = cards@.len() >= 5 && cards@.no_duplicates() && (forall|i: int|
        0 <= i < cards@.len() ==> is_card(#[trigger] cards@[i]));
    proof {
        if well {
            lemma_every_board_has_a_strength(cards@);
        }
    }
    if cards.len() < 5 {
        return Err(EvalError::MalformedHandSize);
    }
    let combos = combinations(&cards, 5);
    let ghost hands = rows(combos);
    proof {
        lemma_combinations_drawn(cards@, 5);
        lemma_combinations_len(cards@, 5);
        lemma_binomial_positive(cards@.len(), 5);
    }
    let mut best: u32 = 0;
    let mut i: usize = 0;
    while i < combos.len()
        invariant
            i <= combos@.len(),
            cards@.len() >= 5,
            well <==> cards@.len() >= 5 && cards@.no_duplicates() && (forall|i: int|
                0 <= i < cards@.len() ==> is_card(#[trigger] cards@[i])),
            well ==> !some_hand_fails(combinations_of(cards@, 5)),
            hands == rows(combos),
            hands == combinations_of(cards@, 5),
            forall|j: int| 0 <= j < hands.len() ==> (#[trigger] hands[j]).len() == 5,
            i > 0 ==> is_best(hands.take(i as int), best),
        decreases combos@.len() - i,
    {
        let combo = combos[i].clone();
        proof {
            assert(combo@ =~= hands[i as int]);
        }
        let ghost before = hands.take(i as int);
        let ghost now = hands.take(i + 1);
        match evaluate_hand(tables, combo) {
            Ok(strength) => {
                proof {
                    assert(now[i as int] == hands[i as int]);
                    assert(forall|j: int| 0 <= j < i ==> now[j] == before[j]);
                    if i > 0 {
                        let at = choose|at: int|
                            0 <= at < before.len() && hand_strength(before[at]) == Ok::<
                                u32,
                                EvalError,
                            >(best);
                        assert(now[at] == before[at]);
                    }
                }
                if i == 0 || strength < best {
                    best = strength;
                }
            },
            Err(error) => {
                proof {
                    assert(hand_strength(hands[i as int]) is Err);
                }
                return Err(error);
            },
        }
        i += 1;
    }
    proof {
        assert(hands.take(hands.len() as int) =~= hands);
        assert(!some_hand_fails(hands));
        let chosen = choose|chosen: u32| is_best(hands, chosen);
        lemma_best_is_unique(hands, best, chosen);
    }
    Ok(best)
}

} // verus!
