//! The order of strengths follows the order of poker hands: a hand of a
//! higher rank has a smaller strength than any hand of a lower rank.
use vstd::prelude::*;
use crate::card::{rank_set_product, Card};
use crate::census::{lemma_flush_in_band, lemma_hand_in_band};
use crate::coverage::{
    category_of_pairs, equal_pairs, hand_ranks, is_hand, lemma_five_bits, lemma_hand_fields,
    lemma_ranks_in_table, lemma_sort_five, mask_of, product5,
};
use crate::entries::lemma_mask_of_product;
use crate::evaluate::{hand_strength, is_flush, united_bits};
use crate::lookup::{
    is_straight_key, is_straight_mask, lemma_straights_have_five, mask_key, mask_keys,
    straight_masks,
};
use crate::shapes::Category;
use crate::strengths::lemma_mask_key_injective;

verus! {

/// The ranks of poker hands, from the highest to the lowest.
#[derive(Clone, Copy, PartialEq, Eq, Debug)]
pub enum HandRank {
    /// Five ranks in a row, of one suit.
    StraightFlush,
    /// Four cards of one rank.
    FourOfAKind,
    /// Three cards of one rank and two of another.
    FullHouse,
    /// Five cards of one suit, not in a row.
    Flush,
    /// Five ranks in a row, not of one suit.
    Straight,
    /// Three cards of one rank and two of two other ranks.
    ThreeOfAKind,
    /// Two cards of one rank, two of another and one of a third.
    TwoPair,
    /// Two cards of one rank and three of three other ranks.
    OnePair,
    /// Five ranks, not in a row and not of one suit.
    HighCard,
}

/// The rank of a hand: by whether its cards share a suit, by whether its
/// ranks are five in a row, and by how many pairs of its cards have the
/// same rank.
pub open spec fn hand_rank(cards: Seq<Card>) -> HandRank {
    let r = hand_ranks(cards);
    let in_a_row = is_straight_mask(united_bits(cards) >> 16);
    if is_flush(cards) {
        if in_a_row {
            HandRank::StraightFlush
        } else {
            HandRank::Flush
        }
    } else {
        match category_of_pairs(equal_pairs(r.0, r.1, r.2, r.3, r.4)) {
            Category::Quads => HandRank::FourOfAKind,
            Category::FullHouse => HandRank::FullHouse,
            Category::Trips => HandRank::ThreeOfAKind,
            Category::TwoPair => HandRank::TwoPair,
            Category::Pair => HandRank::OnePair,
            Category::HighCard => if in_a_row {
                HandRank::Straight
            } else {
                HandRank::HighCard
            },
        }
    }
}

/// The strength of the strongest hand of a rank.
pub open spec fn best_strength(rank: HandRank) -> u32 {
    match rank {
        HandRank::StraightFlush => 1,
        HandRank::FourOfAKind => 11,
        HandRank::FullHouse => 167,
        HandRank::Flush => 323,
        HandRank::Straight => 1600,
        HandRank::ThreeOfAKind => 1610,
        HandRank::TwoPair => 2468,
        HandRank::OnePair => 3326,
        HandRank::HighCard => 6186,
    }
}

/// The strength of the weakest hand of a rank.
pub open spec fn worst_strength(rank: HandRank) -> u32 {
    match rank {
        HandRank::StraightFlush => 10,
        HandRank::FourOfAKind => 166,
        HandRank::FullHouse => 322,
        HandRank::Flush => 1599,
        HandRank::Straight => 1609,
        HandRank::ThreeOfAKind => 2467,
        HandRank::TwoPair => 3325,
        HandRank::OnePair => 6185,
        HandRank::HighCard => 7462,
    }
}

/// The place of a rank in the order of ranks, the highest first.
pub open spec fn place(rank: HandRank) -> int {
    match rank {
        HandRank::StraightFlush => 0,
        HandRank::FourOfAKind => 1,
        HandRank::FullHouse => 2,
        HandRank::Flush => 3,
        HandRank::Straight => 4,
        HandRank::ThreeOfAKind => 5,
        HandRank::TwoPair => 6,
        HandRank::OnePair => 7,
        HandRank::HighCard => 8,
    }
}

/// The fingerprint of five different ranks is that of their mask, which
/// has five one bits.
pub proof fn lemma_distinct_ranks_key(a: u32, b: u32, c: u32, d: u32, e: u32)
    requires
        a < 13 && b < 13 && c < 13 && d < 13 && e < 13,
        equal_pairs(a, b, c, d, e) == 0,
    ensures
        product5(a, b, c, d, e) == rank_set_product(mask_of((a, b, c, d, e))),
        is_five_rank_mask(mask_of((a, b, c, d, e))),
{
    let s = lemma_sort_five(a, b, c, d, e);
    lemma_mask_of_product(s);
    lemma_five_bits(a, b, c, d, e);
}

/// Whether a mask is one of five ranks.
pub open spec fn is_five_rank_mask(mask: u32) -> bool {
    mask < 8192 && crate::bits::count_ones(mask) == 5
}

/// The strength of every hand lies in the band of its rank: 1 to 10 for
/// a straight flush, then four of a kind, full house, flush, straight,
/// three of a kind, two pair, one pair, and 6186 to 7462 for a high card.
pub proof fn lemma_strength_follows_rank(cards: Seq<Card>)
    requires
        is_hand(cards),
    ensures
        match hand_strength(cards) {
            Ok(strength) => best_strength(hand_rank(cards)) <= strength <= worst_strength(
                hand_rank(cards),
            ),
            Err(_) => false,
        },
{
    lemma_hand_fields(cards);
    let r = hand_ranks(cards);
    let mask = united_bits(cards) >> 16;
    assert(mask == mask_of(r));
    if is_flush(cards) {
        lemma_five_bits(r.0, r.1, r.2, r.3, r.4);
        lemma_flush_in_band(mask);
        crate::primes::lemma_five_ranks_fit(mask);
    } else {
        let hand = lemma_ranks_in_table(r.0, r.1, r.2, r.3, r.4);
        let key = product5(r.0, r.1, r.2, r.3, r.4) as u32;
        lemma_hand_in_band(hand.0, hand.1, hand.2);
        if hand.0 == Category::HighCard {
            lemma_distinct_ranks_key(r.0, r.1, r.2, r.3, r.4);
            assert(key == mask_key(mask));
            let straight = mask_keys(straight_masks());
            if is_straight_key(key) {
                let at = choose|at: int| 0 <= at < straight.len() && straight[at] == key;
                lemma_straights_have_five(straight_masks()[at]);
                lemma_mask_key_injective(straight_masks()[at], mask);
            }
            if is_straight_mask(mask) {
                let at = choose|at: int| 0 <= at < 10 && straight_masks()[at] == mask;
                assert(straight[at] == key);
            }
        }
    }
}

/// A hand of a higher rank beats every hand of a lower rank: its strength
/// is the smaller number.
pub proof fn lemma_higher_rank_wins(winner: Seq<Card>, loser: Seq<Card>)
    requires
        is_hand(winner),
        is_hand(loser),
        place(hand_rank(winner)) < place(hand_rank(loser)),
    ensures
        hand_strength(winner) is Ok,
        hand_strength(loser) is Ok,
        hand_strength(winner).unwrap() < hand_strength(loser).unwrap(),
{
    lemma_strength_follows_rank(winner);
    lemma_strength_follows_rank(loser);
}

/// Five ranks whose mask has five one bits are all different.
proof fn lemma_five_bits_differ(a: u32, b: u32, c: u32, d: u32, e: u32)
    by (bit_vector)
    requires
        a < 13 && b < 13 && c < 13 && d < 13 && e < 13,
        crate::bits::count_ones(
            (1u32 << a) | (1u32 << b) | (1u32 << c) | (1u32 << d) | (1u32 << e),
        ) == 5,
    ensures
        a != b && a != c && a != d && a != e && b != c && b != d && b != e && c != d && c != e
            && d != e,
{
}

/// Five cards of one suit beat five cards of the same ranks that are not
/// of one suit.
pub proof fn lemma_suited_beats_unsuited(suited: Seq<Card>, unsuited: Seq<Card>)
    requires
        is_hand(suited),
        is_hand(unsuited),
        is_flush(suited),
        !is_flush(unsuited),
        united_bits(suited) >> 16 == united_bits(unsuited) >> 16,
    ensures
        hand_strength(suited) is Ok,
        hand_strength(unsuited) is Ok,
        hand_strength(suited).unwrap() < hand_strength(unsuited).unwrap(),
{
    lemma_hand_fields(suited);
    lemma_hand_fields(unsuited);
    let r = hand_ranks(suited);
    let q = hand_ranks(unsuited);
    lemma_five_bits(r.0, r.1, r.2, r.3, r.4);
    lemma_five_bits_differ(q.0, q.1, q.2, q.3, q.4);
    assert(equal_pairs(q.0, q.1, q.2, q.3, q.4) == 0);
    lemma_higher_rank_wins(suited, unsuited);
}

} // verus!
