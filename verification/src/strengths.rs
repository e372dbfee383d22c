//! What the two tables hold: facts about the strengths that construction
//! assigns, and the laws of evaluation that follow from them.
use vstd::prelude::*;
use crate::bits::{count_ones, lemma_patterns_complete, lemma_patterns_sound};
use crate::card::{rank_set_product, Card};
use crate::census::{lemma_category_census, lemma_high_card_census};
use crate::evaluate::{flush_fingerprint, hand_strength, is_flush, united_bits, EvalError};
use crate::lookup::{
    category_keys, five_rank_masks, flush_table, is_straight_mask, lemma_straights_have_five,
    mask_key, mask_keys, plain_flushes, ranked, straight_masks, unsuited_table,
};
use crate::primes::{
    lemma_five_ranks_fit, lemma_mask_product_low_bits, lemma_rank_set_product_injective,
};
use crate::shapes::Category;

verus! {

/// A table holds a key after keys were entered where it held it before or
/// the key was entered.
pub proof fn lemma_ranked_keys(table: Map<u32, u32>, keys: Seq<u32>, first: int, key: u32)
    ensures
        ranked(table, keys, first).contains_key(key) <==> table.contains_key(key) || keys.contains(
            key,
        ),
    decreases keys.len(),
{
    if keys.len() > 0 {
        lemma_ranked_keys(table, keys.drop_last(), first, key);
        if keys.drop_last().contains(key) {
            let i = choose|i: int| 0 <= i < keys.drop_last().len() && keys.drop_last()[i] == key;
            assert(keys[i] == key);
        }
        if keys.contains(key) {
            let i = choose|i: int| 0 <= i < keys.len() && keys[i] == key;
            if i < keys.len() - 1 {
                assert(keys.drop_last()[i] == key);
            }
        }
    }
}

/// A key that was entered has the strength of one of the places where it
/// was entered; any other key keeps the strength it had.
pub proof fn lemma_ranked_value(table: Map<u32, u32>, keys: Seq<u32>, first: int, key: u32)
    requires
        0 <= first,
        first + keys.len() <= u32::MAX,
    ensures
        keys.contains(key) ==> exists|i: int|
            0 <= i < keys.len() && keys[i] == key && ranked(table, keys, first)[key] == first + i,
        !keys.contains(key) && table.contains_key(key) ==> ranked(table, keys, first)[key]
            == table[key],
    decreases keys.len(),
{
    if keys.len() > 0 {
        let before = keys.drop_last();
        lemma_ranked_value(table, before, first, key);
        if keys.last() == key {
            assert(keys[keys.len() - 1] == key);
        } else {
            if keys.contains(key) {
                let i = choose|i: int| 0 <= i < keys.len() && keys[i] == key;
                assert(before[i] == key);
                let j = choose|j: int|
                    0 <= j < before.len() && before[j] == key && ranked(table, before, first)[key]
                        == first + j;
                assert(keys[j] == key);
            } else {
                if before.contains(key) {
                    let i = choose|i: int| 0 <= i < before.len() && before[i] == key;
                    assert(keys[i] == key);
                }
            }
        }
    }
}

/// A key that was entered once has the strength of its place.
pub proof fn lemma_ranked_at(table: Map<u32, u32>, keys: Seq<u32>, first: int, at: int)
    requires
        0 <= first,
        first + keys.len() <= u32::MAX,
        0 <= at < keys.len(),
        forall|j: int| 0 <= j < keys.len() && j != at ==> #[trigger] keys[j] != keys[at],
    ensures
        ranked(table, keys, first).contains_key(keys[at]),
        ranked(table, keys, first)[keys[at]] == first + at,
{
    lemma_ranked_keys(table, keys, first, keys[at]);
    lemma_ranked_value(table, keys, first, keys[at]);
}

/// What the masks without the straights hold.
pub proof fn lemma_plain_flushes_hold(masks: Seq<u32>, x: u32)
    ensures
        plain_flushes(masks).contains(x) <==> masks.contains(x) && !is_straight_mask(x),
        plain_flushes(masks).len() <= masks.len(),
    decreases masks.len(),
{
    if masks.len() > 0 {
        let before = masks.drop_last();
        let rest = plain_flushes(before);
        lemma_plain_flushes_hold(before, x);
        if before.contains(x) {
            let i = choose|i: int| 0 <= i < before.len() && before[i] == x;
            assert(masks[i] == x);
        }
        if masks.contains(x) {
            let i = choose|i: int| 0 <= i < masks.len() && masks[i] == x;
            if i < masks.len() - 1 {
                assert(before[i] == x);
            }
        }
        if !is_straight_mask(masks.last()) {
            let all = seq![masks.last()] + rest;
            assert(all[0] == masks.last());
            if rest.contains(x) {
                let i = choose|i: int| 0 <= i < rest.len() && rest[i] == x;
                assert(all[i + 1] == x);
            }
            if all.contains(x) {
                let i = choose|i: int| 0 <= i < all.len() && all[i] == x;
                if i > 0 {
                    assert(rest[i - 1] == x);
                }
            }
        }
    }
}

/// The masks of five ranks are the words below 8192 with five one bits.
pub proof fn lemma_five_rank_masks_hold(x: u32)
    ensures
        five_rank_masks().contains(x) <==> x < 8192 && count_ones(x) == 5,
        five_rank_masks().len() <= 8192,
{
    lemma_patterns_sound(0, 8192, 5);
    if x < 8192 && count_ones(x) == 5 {
        lemma_patterns_complete(0, 8192, 5, x);
    }
}

/// Two masks of at most five ranks with the same key are the same.
pub proof fn lemma_mask_key_injective(a: u32, b: u32)
    requires
        a < 8192,
        b < 8192,
        count_ones(a) <= 5,
        count_ones(b) <= 5,
        mask_key(a) == mask_key(b),
    ensures
        a == b,
{
    lemma_five_ranks_fit(a);
    lemma_five_ranks_fit(b);
    lemma_rank_set_product_injective(a, b);
    assert(a & 0x1fff == a && b & 0x1fff == b) by (bit_vector)
        requires
            a < 8192,
            b < 8192,
    ;
}

/// The mask of the royal flush: the five highest ranks.
pub open spec fn royal_mask() -> u32 {
    0b1_1111_0000_0000u32
}

/// In the flush table the royal flush has the strength 1, and nothing
/// else has a strength that low.
pub proof fn lemma_flush_table_floor()
    ensures
        flush_table().contains_key(mask_key(royal_mask())),
        flush_table()[mask_key(royal_mask())] == 1,
        forall|key: u32| #[trigger]
            flush_table().contains_key(key) ==> flush_table()[key] >= 1 && (flush_table()[key]
                == 1 ==> key == mask_key(royal_mask())),
{
    let straight = mask_keys(straight_masks());
    let plain = mask_keys(plain_flushes(five_rank_masks()));
    let inner = ranked(Map::empty(), straight, 1);
    let royal = mask_key(royal_mask());
    lemma_five_rank_masks_hold(0);
    lemma_plain_flushes_hold(five_rank_masks(), 0);
    assert(straight[0] == royal);
    assert forall|j: int| 0 <= j < straight.len() && j != 0 implies #[trigger] straight[j]
        != straight[0] by {
        lemma_straights_have_five(straight_masks()[j]);
        lemma_straights_have_five(straight_masks()[0]);
        if straight[j] == straight[0] {
            lemma_mask_key_injective(straight_masks()[j], straight_masks()[0]);
        }
    }
    lemma_ranked_at(Map::empty(), straight, 1, 0);
    assert(!plain.contains(royal)) by {
        if plain.contains(royal) {
            let i = choose|i: int| 0 <= i < plain.len() && plain[i] == royal;
            let mask = plain_flushes(five_rank_masks())[i];
            assert(plain_flushes(five_rank_masks()).contains(mask));
            lemma_plain_flushes_hold(five_rank_masks(), mask);
            lemma_five_rank_masks_hold(mask);
            lemma_straights_have_five(royal_mask());
            lemma_mask_key_injective(mask, royal_mask());
        }
    }
    lemma_ranked_keys(inner, plain, 323, royal);
    lemma_ranked_value(inner, plain, 323, royal);
    assert forall|key: u32| #[trigger] flush_table().contains_key(key) implies flush_table()[key]
        >= 1 && (flush_table()[key] == 1 ==> key == royal) by {
        lemma_ranked_keys(inner, plain, 323, key);
        lemma_ranked_value(inner, plain, 323, key);
        lemma_ranked_keys(Map::empty(), straight, 1, key);
        lemma_ranked_value(Map::empty(), straight, 1, key);
    }
}

/// In the unsuited table no strength is below 11.
pub proof fn lemma_unsuited_table_floor()
    ensures
        forall|key: u32| #[trigger]
            unsuited_table().contains_key(key) ==> unsuited_table()[key] >= 11,
{
    let first = category_keys(Category::Quads) + category_keys(Category::FullHouse);
    let straight = mask_keys(straight_masks());
    let last = category_keys(Category::Trips) + category_keys(Category::TwoPair) + category_keys(
        Category::Pair,
    ) + category_keys(Category::HighCard);
    let upper = ranked(Map::empty(), first, 11);
    let middle = ranked(upper, straight, 1600);
    lemma_category_census();
    lemma_high_card_census();
    assert forall|key: u32| #[trigger] unsuited_table().contains_key(key) implies unsuited_table()[key]
        >= 11 by {
        lemma_ranked_keys(middle, last, 1610, key);
        lemma_ranked_value(middle, last, 1610, key);
        lemma_ranked_keys(upper, straight, 1600, key);
        lemma_ranked_value(upper, straight, 1600, key);
        lemma_ranked_keys(Map::empty(), first, 11, key);
        lemma_ranked_value(Map::empty(), first, 11, key);
    }
}

/// A royal flush: five cards of one suit whose ranks are the five
/// highest.
pub open spec fn is_royal_flush(cards: Seq<Card>) -> bool {
    &&& cards.len() == 5
    &&& is_flush(cards)
    &&& (united_bits(cards) >> 16) & 0x1fff == royal_mask()
}

/// The royal flush has the strength 1, and every other hand that has a
/// strength has a larger one.
pub proof fn lemma_royal_flush_is_strongest(cards: Seq<Card>)
    ensures
        is_royal_flush(cards) ==> hand_strength(cards) == Ok::<u32, EvalError>(1),
        match hand_strength(cards) {
            Ok(strength) => strength >= 1 && (strength == 1 ==> is_royal_flush(cards)),
            Err(_) => true,
        },
{
    lemma_flush_table_floor();
    lemma_unsuited_table_floor();
    let ranks = united_bits(cards) >> 16;
    lemma_mask_product_low_bits(ranks, 13);
    lemma_mask_product_low_bits(royal_mask(), 13);
    lemma_straights_have_five(royal_mask());
    lemma_five_ranks_fit(royal_mask());
    if cards.len() == 5 && is_flush(cards) {
        if hand_strength(cards) == Ok::<u32, EvalError>(1) {
            assert(flush_fingerprint(cards) == rank_set_product(royal_mask()));
            lemma_rank_set_product_injective(ranks, royal_mask());
            assert(royal_mask() & 0x1fff == royal_mask()) by (bit_vector);
        }
    }
}

/// Building the tables again gives the same tables: any two results of
/// construction hold the same entries.
pub proof fn lemma_construction_is_deterministic(
    flush_a: Map<u32, u32>,
    flush_b: Map<u32, u32>,
    unsuited_a: Map<u32, u32>,
    unsuited_b: Map<u32, u32>,
)
    requires
        flush_a == flush_table(),
        flush_b == flush_table(),
        unsuited_a == unsuited_table(),
        unsuited_b == unsuited_table(),
    ensures
        flush_a == flush_b,
        unsuited_a == unsuited_b,
{
}

} // verus!
