//! The tables leave no hand out: every hand of five different cards has
//! its fingerprint in the table that evaluation consults.
use vstd::prelude::*;
use crate::bits::count_ones;
use crate::card::{
    card_rank, card_suit, hand_product, is_card, is_suit, lemma_card_fields, pack_card, rank_prime,
    rank_set_product, Card,
};
use crate::combinations::{
    ascending, combinations_of, lemma_combinations_are_picks, lemma_picks_are_combinations, pick,
};
use crate::entries::lemma_product5_fits;
use crate::evaluate::{
    board_strength, flush_fingerprint, hand_strength, is_flush, shared_suits, some_hand_fails,
    united_bits,
};
use crate::lookup::{
    category_keys, five_rank_masks, flush_table, is_straight_key, is_straight_mask, lead_keys,
    leads_keys, mask_key, mask_keys, plain_flushes, ranked, straight_masks, unsuited_table,
};
use crate::primes::lemma_five_ranks_fit;
use crate::shapes::{
    all_ranks, candidates, kick_size, lead_size, lemma_five_product, ranks_down, ranks_product,
    shape, shape_key, Category,
};
use crate::strengths::{lemma_five_rank_masks_hold, lemma_plain_flushes_hold, lemma_ranked_keys};

verus! {

/// Whether each rank is above the next.
pub open spec fn descending(ranks: Seq<u32>) -> bool {
    forall|i: int, j: int| 0 <= i < j < ranks.len() ==> ranks[i] > ranks[j]
}

/// The ranks listed descend, and they are the ranks below the bound that
/// are not skipped.
pub proof fn lemma_ranks_down_holds(below: nat, skip: Seq<u32>)
    requires
        below <= 13,
    ensures
        descending(ranks_down(below, skip)),
        forall|r: u32| #[trigger]
            ranks_down(below, skip).contains(r) <==> r < below && !skip.contains(r),
    decreases below,
{
    let all = ranks_down(below, skip);
    if below > 0 {
        let top = (below - 1) as u32;
        let rest = ranks_down((below - 1) as nat, skip);
        lemma_ranks_down_holds((below - 1) as nat, skip);
        assert forall|r: u32| #[trigger] all.contains(r) <==> r < below && !skip.contains(r) by {
            if skip.contains(top) {
            } else {
                assert(all == seq![top] + rest);
                assert(all[0] == top);
                if rest.contains(r) {
                    let i = choose|i: int| 0 <= i < rest.len() && rest[i] == r;
                    assert(all[i + 1] == r);
                }
                if all.contains(r) {
                    let i = choose|i: int| 0 <= i < all.len() && all[i] == r;
                    if i > 0 {
                        assert(rest[i - 1] == r);
                    }
                }
            }
        }
        assert(descending(all)) by {
            if !skip.contains(top) {
                assert forall|i: int, j: int| 0 <= i < j < all.len() implies all[i] > all[j] by {
                    assert(all[j] == rest[j - 1]);
                    assert(rest.contains(rest[j - 1]));
                    if i > 0 {
                        assert(all[i] == rest[i - 1]);
                    }
                }
            }
        }
    }
}

/// A descending row drawn from descending items is one of the selections
/// from them.
pub proof fn lemma_descending_row_is_selected(items: Seq<u32>, row: Seq<u32>)
    requires
        descending(items),
        descending(row),
        forall|j: int| 0 <= j < row.len() ==> items.contains(#[trigger] row[j]),
    ensures
        combinations_of(items, row.len()).contains(row),
{
    let places = Seq::new(
        row.len(),
        |j: int| choose|i: int| 0 <= i < items.len() && items[i] == row[j],
    );
    assert forall|j: int| 0 <= j < places.len() implies 0 <= #[trigger] places[j] < items.len()
        && items[places[j]] == row[j] by {
        assert(items.contains(row[j]));
    }
    assert(ascending(places, items.len() as int)) by {
        assert forall|i: int, j: int| 0 <= i < j < places.len() implies places[i] < places[j] by {
            assert(items[places[i]] == row[i]);
            assert(items[places[j]] == row[j]);
            assert(row[i] > row[j]);
            if places[i] > places[j] {
                assert(items[places[j]] > items[places[i]]);
            }
        }
    }
    lemma_picks_are_combinations(items, places);
    assert(pick(items, places) =~= row);
}

/// The keys under a leading group hold the key of each of its choices of
/// kickers, but for a straight among the high cards.
pub proof fn lemma_lead_keys_hold(cat: Category, lead: Seq<u32>, kicks: Seq<Seq<u32>>, at: int)
    requires
        0 <= at < kicks.len(),
        !(cat == Category::HighCard && is_straight_key(shape_key(cat, lead, kicks[at]))),
    ensures
        lead_keys(cat, lead, kicks).contains(shape_key(cat, lead, kicks[at])),
    decreases kicks.len(),
{
    let all = lead_keys(cat, lead, kicks);
    let before = lead_keys(cat, lead, kicks.drop_last());
    let key = shape_key(cat, lead, kicks[at]);
    if at == kicks.len() - 1 {
        assert(all == before.push(key));
        assert(all[all.len() - 1] == key);
    } else {
        assert(kicks.drop_last()[at] == kicks[at]);
        lemma_lead_keys_hold(cat, lead, kicks.drop_last(), at);
        let i = choose|i: int| 0 <= i < before.len() && before[i] == key;
        assert(all[i] == key);
    }
}

/// The keys of a run of leading groups hold the keys under each of them.
pub proof fn lemma_leads_keys_hold(cat: Category, leads: Seq<Seq<u32>>, at: int, key: u32)
    requires
        0 <= at < leads.len(),
        lead_keys(
            cat,
            leads[at],
            combinations_of(candidates(cat, leads[at]), kick_size(cat)),
        ).contains(key),
    ensures
        leads_keys(cat, leads).contains(key),
    decreases leads.len(),
{
    let all = leads_keys(cat, leads);
    let before = leads_keys(cat, leads.drop_last());
    let under = lead_keys(
        cat,
        leads.last(),
        combinations_of(candidates(cat, leads.last()), kick_size(cat)),
    );
    assert(all == before + under);
    if at == leads.len() - 1 {
        let i = choose|i: int| 0 <= i < under.len() && under[i] == key;
        assert(all[before.len() + i] == key);
    } else {
        assert(leads.drop_last()[at] == leads[at]);
        lemma_leads_keys_hold(cat, leads.drop_last(), at, key);
        let i = choose|i: int| 0 <= i < before.len() && before[i] == key;
        assert(all[i] == key);
    }
}

/// Whether a leading group and kickers make a hand of the category: both
/// descend and are made of ranks, the kickers are none of the leading
/// ranks, and those of a high card are below the leading rank.
pub open spec fn fits(cat: Category, lead: Seq<u32>, kick: Seq<u32>) -> bool {
    &&& lead.len() == lead_size(cat)
    &&& kick.len() == kick_size(cat)
    &&& all_ranks(lead)
    &&& all_ranks(kick)
    &&& descending(lead)
    &&& descending(kick)
    &&& forall|j: int| 0 <= j < kick.len() ==> !lead.contains(#[trigger] kick[j])
    &&& cat == Category::HighCard ==> forall|j: int|
        0 <= j < kick.len() ==> #[trigger] kick[j] < lead[0]
}

/// The keys of a category hold the key of every hand of the category, but
/// for the straights among the high cards.
pub proof fn lemma_category_holds(cat: Category, lead: Seq<u32>, kick: Seq<u32>)
    requires
        fits(cat, lead, kick),
        !(cat == Category::HighCard && is_straight_key(shape_key(cat, lead, kick))),
    ensures
        category_keys(cat).contains(shape_key(cat, lead, kick)),
{
    let none = Seq::<u32>::empty();
    let all = ranks_down(13, none);
    lemma_ranks_down_holds(13, none);
    assert forall|j: int| 0 <= j < lead.len() implies all.contains(#[trigger] lead[j]) by {
        assert(lead[j] < 13);
    }
    lemma_descending_row_is_selected(all, lead);
    let leads = combinations_of(all, lead_size(cat));
    let li = choose|i: int| 0 <= i < leads.len() && leads[i] == lead;

    let pool = candidates(cat, lead);
    if cat == Category::HighCard {
        assert(lead[0] < 13);
        lemma_ranks_down_holds(lead[0] as nat, none);
    } else {
        lemma_ranks_down_holds(13, lead);
    }
    assert forall|j: int| 0 <= j < kick.len() implies pool.contains(#[trigger] kick[j]) by {
        assert(kick[j] < 13);
        assert(!lead.contains(kick[j]));
    }
    lemma_descending_row_is_selected(pool, kick);
    let kicks = combinations_of(pool, kick_size(cat));
    let ki = choose|i: int| 0 <= i < kicks.len() && kicks[i] == kick;
    lemma_lead_keys_hold(cat, lead, kicks, ki);
    lemma_leads_keys_hold(cat, leads, li, shape_key(cat, lead, kick));
}

/// Whether a key is in one of two runs of keys where it is in their
/// concatenation.
pub proof fn lemma_concat_holds(a: Seq<u32>, b: Seq<u32>, key: u32)
    ensures
        (a + b).contains(key) <==> a.contains(key) || b.contains(key),
{
    let all = a + b;
    if a.contains(key) {
        let i = choose|i: int| 0 <= i < a.len() && a[i] == key;
        assert(all[i] == key);
    }
    if b.contains(key) {
        let i = choose|i: int| 0 <= i < b.len() && b[i] == key;
        assert(all[a.len() + i] == key);
    }
    if all.contains(key) {
        let i = choose|i: int| 0 <= i < all.len() && all[i] == key;
        if i < a.len() {
            assert(a[i] == key);
        } else {
            assert(b[i - a.len()] == key);
        }
    }
}

/// The unsuited table holds the keys of all six categories and those of
/// the straights, and no others.
pub proof fn lemma_unsuited_table_keys(key: u32)
    ensures
        unsuited_table().contains_key(key) <==> {
            ||| category_keys(Category::Quads).contains(key)
            ||| category_keys(Category::FullHouse).contains(key)
            ||| is_straight_key(key)
            ||| category_keys(Category::Trips).contains(key)
            ||| category_keys(Category::TwoPair).contains(key)
            ||| category_keys(Category::Pair).contains(key)
            ||| category_keys(Category::HighCard).contains(key)
        },
{
    let quads = category_keys(Category::Quads);
    let full = category_keys(Category::FullHouse);
    let trips = category_keys(Category::Trips);
    let two_pair = category_keys(Category::TwoPair);
    let pair = category_keys(Category::Pair);
    let high = category_keys(Category::HighCard);
    let straight = mask_keys(straight_masks());
    let upper = ranked(Map::empty(), quads + full, 11);
    let middle = ranked(upper, straight, 1600);
    lemma_ranked_keys(Map::empty(), quads + full, 11, key);
    lemma_ranked_keys(upper, straight, 1600, key);
    lemma_ranked_keys(middle, trips + two_pair + pair + high, 1610, key);
    lemma_concat_holds(quads, full, key);
    lemma_concat_holds(trips, two_pair, key);
    lemma_concat_holds(trips + two_pair, pair, key);
    lemma_concat_holds(trips + two_pair + pair, high, key);
}

/// The product of the primes of five ranks.
#[verifier::opaque]
pub open spec fn product5(a: u32, b: u32, c: u32, d: u32, e: u32) -> nat {
    rank_prime(a as int) * rank_prime(b as int) * rank_prime(c as int) * rank_prime(d as int)
        * rank_prime(e as int)
}

/// How many pairs of places among five hold the same rank.
pub open spec fn equal_pairs(a: u32, b: u32, c: u32, d: u32, e: u32) -> int {
    same(a, b) + same(a, c) + same(a, d) + same(a, e) + same(b, c) + same(b, d) + same(b, e)
        + same(c, d) + same(c, e) + same(d, e)
}

/// One where two ranks are the same, else zero.
pub open spec fn same(x: u32, y: u32) -> int {
    if x == y {
        1
    } else {
        0
    }
}

/// How many pairs of places of a group of five hold the same rank.
pub open spec fn pairs_of(s: (u32, u32, u32, u32, u32)) -> int {
    equal_pairs(s.0, s.1, s.2, s.3, s.4)
}

/// The category of five ranks with the given number of equal pairs: six
/// pairs are four of a kind, four a full house, three are three of a kind,
/// two are two pair, one is a pair, none is a high card.
pub open spec fn category_of_pairs(pairs: int) -> Category {
    if pairs == 6 {
        Category::Quads
    } else if pairs == 4 {
        Category::FullHouse
    } else if pairs == 3 {
        Category::Trips
    } else if pairs == 2 {
        Category::TwoPair
    } else if pairs == 1 {
        Category::Pair
    } else {
        Category::HighCard
    }
}

/// The mask of five ranks.
pub open spec fn mask_of(c: (u32, u32, u32, u32, u32)) -> u32 {
    (1u32 << c.0) | (1u32 << c.1) | (1u32 << c.2) | (1u32 << c.3) | (1u32 << c.4)
}

/// The union of five words does not depend on their order: any two
/// neighbours may change places.
proof fn lemma_union_swaps(a: u32, b: u32, c: u32, d: u32, e: u32)
    by (bit_vector)
    ensures
        a | b | c | d | e == b | a | c | d | e,
        a | b | c | d | e == a | c | b | d | e,
        a | b | c | d | e == a | b | d | c | e,
        a | b | c | d | e == a | b | c | e | d,
{
}

/// Whether `x` is one of five ranks.
pub open spec fn among(x: u32, a: u32, b: u32, c: u32, d: u32, e: u32) -> bool {
    x == a || x == b || x == c || x == d || x == e
}

/// The product of five primes does not depend on their order: any two
/// neighbours may change places.
pub proof fn lemma_product5_swaps(a: u32, b: u32, c: u32, d: u32, e: u32)
    ensures
        product5(a, b, c, d, e) == product5(b, a, c, d, e),
        product5(a, b, c, d, e) == product5(a, c, b, d, e),
        product5(a, b, c, d, e) == product5(a, b, d, c, e),
        product5(a, b, c, d, e) == product5(a, b, c, e, d),
{
    reveal(product5);
    let pa = rank_prime(a as int);
    let pb = rank_prime(b as int);
    let pc = rank_prime(c as int);
    let pd = rank_prime(d as int);
    let pe = rank_prime(e as int);
    assert(pa * pb * pc * pd * pe == pb * pa * pc * pd * pe) by (nonlinear_arith);
    assert(pa * pb * pc * pd * pe == pa * pc * pb * pd * pe) by (nonlinear_arith);
    assert(pa * pb * pc * pd * pe == pa * pb * pd * pc * pe) by (nonlinear_arith);
    assert(pa * pb * pc * pd * pe == pa * pb * pc * pe * pd) by (nonlinear_arith);
}

/// Whether two groups of five ranks hold the same ranks.
pub open spec fn same_ranks(s: (u32, u32, u32, u32, u32), t: (u32, u32, u32, u32, u32)) -> bool {
    &&& among(s.0, t.0, t.1, t.2, t.3, t.4)
    &&& among(s.1, t.0, t.1, t.2, t.3, t.4)
    &&& among(s.2, t.0, t.1, t.2, t.3, t.4)
    &&& among(s.3, t.0, t.1, t.2, t.3, t.4)
    &&& among(s.4, t.0, t.1, t.2, t.3, t.4)
    &&& among(t.0, s.0, s.1, s.2, s.3, s.4)
    &&& among(t.1, s.0, s.1, s.2, s.3, s.4)
    &&& among(t.2, s.0, s.1, s.2, s.3, s.4)
    &&& among(t.3, s.0, s.1, s.2, s.3, s.4)
    &&& among(t.4, s.0, s.1, s.2, s.3, s.4)
}

/// The product of five ranks, taken as a group.
pub open spec fn product_of(s: (u32, u32, u32, u32, u32)) -> nat {
    product5(s.0, s.1, s.2, s.3, s.4)
}

/// Five ranks with the ranks at the places `at` and `at + 1` put in
/// order: the same ranks, with the same product.
proof fn order_at(s: (u32, u32, u32, u32, u32), at: int, from: (u32, u32, u32, u32, u32)) -> (t: (
    u32,
    u32,
    u32,
    u32,
    u32,
))
    requires
        0 <= at < 4,
        same_ranks(s, from),
    ensures
        product_of(t) == product_of(s),
        pairs_of(t) == pairs_of(s),
        mask_of(t) == mask_of(s),
        same_ranks(t, from),
        at == 0 ==> t.0 >= t.1 && t.2 == s.2 && t.3 == s.3 && t.4 == s.4 && ((t.0 == s.0 && t.1
            == s.1) || (t.0 == s.1 && t.1 == s.0)),
        at == 1 ==> t.1 >= t.2 && t.0 == s.0 && t.3 == s.3 && t.4 == s.4 && ((t.1 == s.1 && t.2
            == s.2) || (t.1 == s.2 && t.2 == s.1)),
        at == 2 ==> t.2 >= t.3 && t.0 == s.0 && t.1 == s.1 && t.4 == s.4 && ((t.2 == s.2 && t.3
            == s.3) || (t.2 == s.3 && t.3 == s.2)),
        at == 3 ==> t.3 >= t.4 && t.0 == s.0 && t.1 == s.1 && t.2 == s.2 && ((t.3 == s.3 && t.4
            == s.4) || (t.3 == s.4 && t.4 == s.3)),
{
    lemma_product5_swaps(s.0, s.1, s.2, s.3, s.4);
    lemma_union_swaps(1u32 << s.0, 1u32 << s.1, 1u32 << s.2, 1u32 << s.3, 1u32 << s.4);
    if at == 0 && s.0 < s.1 {
        (s.1, s.0, s.2, s.3, s.4)
    } else if at == 1 && s.1 < s.2 {
        (s.0, s.2, s.1, s.3, s.4)
    } else if at == 2 && s.2 < s.3 {
        (s.0, s.1, s.3, s.2, s.4)
    } else if at == 3 && s.3 < s.4 {
        (s.0, s.1, s.2, s.4, s.3)
    } else {
        s
    }
}

/// Five ranks with the least of the first `n + 1` moved to the place `n`,
/// and those behind it left where they are.
proof fn sink_least(
    s: (u32, u32, u32, u32, u32),
    n: int,
    from: (u32, u32, u32, u32, u32),
    floor: u32,
) -> (t: (u32, u32, u32, u32, u32))
    requires
        1 <= n <= 4,
        same_ranks(s, from),
        s.0 >= floor,
        s.1 >= floor,
        n >= 2 ==> s.2 >= floor,
        n >= 3 ==> s.3 >= floor,
        n >= 4 ==> s.4 >= floor,
    ensures
        product_of(t) == product_of(s),
        pairs_of(t) == pairs_of(s),
        mask_of(t) == mask_of(s),
        same_ranks(t, from),
        t.0 >= floor,
        t.1 >= floor,
        n >= 2 ==> t.2 >= floor,
        n >= 3 ==> t.3 >= floor,
        n >= 4 ==> t.4 >= floor,
        n == 4 ==> t.4 <= t.0 && t.4 <= t.1 && t.4 <= t.2 && t.4 <= t.3,
        n == 3 ==> t.3 <= t.0 && t.3 <= t.1 && t.3 <= t.2 && t.4 == s.4,
        n == 2 ==> t.2 <= t.0 && t.2 <= t.1 && t.3 == s.3 && t.4 == s.4,
        n == 1 ==> t.1 <= t.0 && t.2 == s.2 && t.3 == s.3 && t.4 == s.4,
{
    let t1 = order_at(s, 0, from);
    if n == 1 {
        t1
    } else {
        let t2 = order_at(t1, 1, from);
        if n == 2 {
            t2
        } else {
            let t3 = order_at(t2, 2, from);
            if n == 3 {
                t3
            } else {
                order_at(t3, 3, from)
            }
        }
    }
}

/// Five ranks in descending order, with the same product.
pub proof fn lemma_sort_five(a: u32, b: u32, c: u32, d: u32, e: u32) -> (s: (
    u32,
    u32,
    u32,
    u32,
    u32,
))
    ensures
        s.0 >= s.1 >= s.2 >= s.3 >= s.4,
        product5(s.0, s.1, s.2, s.3, s.4) == product5(a, b, c, d, e),
        equal_pairs(s.0, s.1, s.2, s.3, s.4) == equal_pairs(a, b, c, d, e),
        mask_of(s) == mask_of((a, b, c, d, e)),
        same_ranks(s, (a, b, c, d, e)),
        s.0 == s.4 ==> a == b && b == c && c == d && d == e,
{
    let from = (a, b, c, d, e);
    let s4 = sink_least(from, 4, from, 0);
    let s3 = sink_least(s4, 3, from, s4.4);
    let s2 = sink_least(s3, 2, from, s3.3);
    let s1 = sink_least(s2, 1, from, s2.2);
    assert(s1.0 >= s1.1 >= s1.2 >= s1.3 >= s1.4);
    s1
}

/// The key of a hand of a category is in the unsuited table.
pub proof fn lemma_shape_in_table(cat: Category, lead: Seq<u32>, kick: Seq<u32>)
    requires
        fits(cat, lead, kick),
    ensures
        unsuited_table().contains_key(shape_key(cat, lead, kick)),
{
    let key = shape_key(cat, lead, kick);
    lemma_unsuited_table_keys(key);
    if !(cat == Category::HighCard && is_straight_key(key)) {
        lemma_category_holds(cat, lead, kick);
    }
}

/// One leading rank and one other rank make four of a kind, and a full
/// house.
pub proof fn lemma_fits_one_one(cat: Category, r: u32, s: u32)
    requires
        cat == Category::Quads || cat == Category::FullHouse,
        r < 13,
        s < 13,
        r != s,
    ensures
        fits(cat, seq![r], seq![s]),
{
    let lead = seq![r];
    let kick = seq![s];
    assert forall|j: int| 0 <= j < kick.len() implies !lead.contains(#[trigger] kick[j]) by {
        if lead.contains(kick[j]) {
            let i = choose|i: int| 0 <= i < lead.len() && lead[i] == kick[j];
        }
    }
}

/// A leading rank and two descending kickers make three of a kind.
pub proof fn lemma_fits_trips(r: u32, k1: u32, k2: u32)
    requires
        r < 13,
        13 > k1 > k2,
        r != k1,
        r != k2,
    ensures
        fits(Category::Trips, seq![r], seq![k1, k2]),
{
    let lead = seq![r];
    let kick = seq![k1, k2];
    assert forall|j: int| 0 <= j < kick.len() implies !lead.contains(#[trigger] kick[j]) by {
        if lead.contains(kick[j]) {
            let i = choose|i: int| 0 <= i < lead.len() && lead[i] == kick[j];
        }
    }
}

/// Two descending leading ranks and one kicker make two pair.
pub proof fn lemma_fits_two_pair(f1: u32, f2: u32, k: u32)
    requires
        13 > f1 > f2,
        k < 13,
        k != f1,
        k != f2,
    ensures
        fits(Category::TwoPair, seq![f1, f2], seq![k]),
{
    let lead = seq![f1, f2];
    let kick = seq![k];
    assert forall|j: int| 0 <= j < kick.len() implies !lead.contains(#[trigger] kick[j]) by {
        if lead.contains(kick[j]) {
            let i = choose|i: int| 0 <= i < lead.len() && lead[i] == kick[j];
        }
    }
}

/// A leading rank and three descending kickers make a pair.
pub proof fn lemma_fits_pair(r: u32, k1: u32, k2: u32, k3: u32)
    requires
        r < 13,
        13 > k1 > k2 > k3,
        r != k1,
        r != k2,
        r != k3,
    ensures
        fits(Category::Pair, seq![r], seq![k1, k2, k3]),
{
    let lead = seq![r];
    let kick = seq![k1, k2, k3];
    assert forall|j: int| 0 <= j < kick.len() implies !lead.contains(#[trigger] kick[j]) by {
        if lead.contains(kick[j]) {
            let i = choose|i: int| 0 <= i < lead.len() && lead[i] == kick[j];
        }
    }
}

/// Five descending ranks make a high card.
pub proof fn lemma_fits_high_card(h: u32, k1: u32, k2: u32, k3: u32, k4: u32)
    requires
        13 > h > k1 > k2 > k3 > k4,
    ensures
        fits(Category::HighCard, seq![h], seq![k1, k2, k3, k4]),
{
    let lead = seq![h];
    let kick = seq![k1, k2, k3, k4];
    assert forall|j: int| 0 <= j < kick.len() implies !lead.contains(#[trigger] kick[j]) by {
        if lead.contains(kick[j]) {
            let i = choose|i: int| 0 <= i < lead.len() && lead[i] == kick[j];
        }
    }
}

/// The unsuited table holds the product of any five ranks that are not
/// all the same.
pub proof fn lemma_ranks_in_table(a: u32, b: u32, c: u32, d: u32, e: u32) -> (hand: (
    Category,
    Seq<u32>,
    Seq<u32>,
))
    requires
        a < 13,
        b < 13,
        c < 13,
        d < 13,
        e < 13,
        !(a == b && b == c && c == d && d == e),
    ensures
        product5(a, b, c, d, e) <= u32::MAX,
        unsuited_table().contains_key(product5(a, b, c, d, e) as u32),
        fits(hand.0, hand.1, hand.2),
        shape_key(hand.0, hand.1, hand.2) == product5(a, b, c, d, e),
        hand.0 == category_of_pairs(equal_pairs(a, b, c, d, e)),
        hand.0 == Category::HighCard ==> equal_pairs(a, b, c, d, e) == 0,
{
    let s = lemma_sort_five(a, b, c, d, e);
    lemma_sorted_ranks_in_table(s.0, s.1, s.2, s.3, s.4)
}

/// The unsuited table holds the product of any five ranks in descending
/// order of which the first and the last differ.
pub proof fn lemma_sorted_ranks_in_table(s0: u32, s1: u32, s2: u32, s3: u32, s4: u32) -> (hand: (
    Category,
    Seq<u32>,
    Seq<u32>,
))
    requires
        13 > s0 >= s1 >= s2 >= s3 >= s4,
        s0 != s4,
    ensures
        product5(s0, s1, s2, s3, s4) <= u32::MAX,
        unsuited_table().contains_key(product5(s0, s1, s2, s3, s4) as u32),
        fits(hand.0, hand.1, hand.2),
        shape_key(hand.0, hand.1, hand.2) == product5(s0, s1, s2, s3, s4),
        hand.0 == category_of_pairs(equal_pairs(s0, s1, s2, s3, s4)),
        hand.0 == Category::HighCard ==> equal_pairs(s0, s1, s2, s3, s4) == 0,
{
    reveal(product5);
    let f0 = rank_prime(s0 as int);
    let f1 = rank_prime(s1 as int);
    let f2 = rank_prime(s2 as int);
    let f3 = rank_prime(s3 as int);
    let f4 = rank_prime(s4 as int);
    let hand = product5(s0, s1, s2, s3, s4);
    lemma_product5_fits(s0, s1, s2, s3, s4);
    let (cat, lead, kick) = if s0 == s1 && s1 == s2 && s2 == s3 {
        lemma_fits_one_one(Category::Quads, s0, s4);
        (Category::Quads, seq![s0], seq![s4])
    } else if s1 == s2 && s2 == s3 && s3 == s4 {
        lemma_fits_one_one(Category::Quads, s1, s0);
        (Category::Quads, seq![s1], seq![s0])
    } else if s0 == s1 && s1 == s2 && s3 == s4 {
        lemma_fits_one_one(Category::FullHouse, s0, s3);
        (Category::FullHouse, seq![s0], seq![s3])
    } else if s0 == s1 && s2 == s3 && s3 == s4 {
        lemma_fits_one_one(Category::FullHouse, s2, s0);
        (Category::FullHouse, seq![s2], seq![s0])
    } else if s0 == s1 && s1 == s2 {
        lemma_fits_trips(s0, s3, s4);
        (Category::Trips, seq![s0], seq![s3, s4])
    } else if s1 == s2 && s2 == s3 {
        lemma_fits_trips(s1, s0, s4);
        (Category::Trips, seq![s1], seq![s0, s4])
    } else if s2 == s3 && s3 == s4 {
        lemma_fits_trips(s2, s0, s1);
        (Category::Trips, seq![s2], seq![s0, s1])
    } else if s0 == s1 && s2 == s3 {
        lemma_fits_two_pair(s0, s2, s4);
        (Category::TwoPair, seq![s0, s2], seq![s4])
    } else if s0 == s1 && s3 == s4 {
        lemma_fits_two_pair(s0, s3, s2);
        (Category::TwoPair, seq![s0, s3], seq![s2])
    } else if s1 == s2 && s3 == s4 {
        lemma_fits_two_pair(s1, s3, s0);
        (Category::TwoPair, seq![s1, s3], seq![s0])
    } else if s0 == s1 {
        lemma_fits_pair(s0, s2, s3, s4);
        (Category::Pair, seq![s0], seq![s2, s3, s4])
    } else if s1 == s2 {
        lemma_fits_pair(s1, s0, s3, s4);
        (Category::Pair, seq![s1], seq![s0, s3, s4])
    } else if s2 == s3 {
        lemma_fits_pair(s2, s0, s1, s4);
        (Category::Pair, seq![s2], seq![s0, s1, s4])
    } else if s3 == s4 {
        lemma_fits_pair(s3, s0, s1, s2);
        (Category::Pair, seq![s3], seq![s0, s1, s2])
    } else {
        lemma_fits_high_card(s0, s1, s2, s3, s4);
        (Category::HighCard, seq![s0], seq![s1, s2, s3, s4])
    };
    lemma_shape_in_table(cat, lead, kick);
    let made = shape(cat, lead, kick);
    lemma_five_product(made[0], made[1], made[2], made[3], made[4]);
    assert(made =~= seq![made[0], made[1], made[2], made[3], made[4]]);
    assert(ranks_product(made) == product5(made[0], made[1], made[2], made[3], made[4]));
    assert(product5(made[0], made[1], made[2], made[3], made[4]) == hand) by {
        let q0 = rank_prime(made[0] as int);
        let q1 = rank_prime(made[1] as int);
        let q2 = rank_prime(made[2] as int);
        let q3 = rank_prime(made[3] as int);
        let q4 = rank_prime(made[4] as int);
        assert(f0 * f1 * f2 * f3 * f4 == f1 * f2 * f3 * f4 * f0) by (nonlinear_arith);
        assert(f0 * f1 * f2 * f3 * f4 == f2 * f3 * f4 * f0 * f1) by (nonlinear_arith);
        assert(f0 * f1 * f2 * f3 * f4 == f1 * f2 * f3 * f0 * f4) by (nonlinear_arith);
        assert(f0 * f1 * f2 * f3 * f4 == f0 * f1 * f3 * f4 * f2) by (nonlinear_arith);
        assert(f0 * f1 * f2 * f3 * f4 == f1 * f2 * f0 * f3 * f4) by (nonlinear_arith);
        assert(f0 * f1 * f2 * f3 * f4 == f2 * f3 * f0 * f1 * f4) by (nonlinear_arith);
        assert(f0 * f1 * f2 * f3 * f4 == f3 * f4 * f0 * f1 * f2) by (nonlinear_arith);
    }
    (cat, lead, kick)
}

/// A hand: five well-formed cards, no two of them the same.
pub open spec fn is_hand(cards: Seq<Card>) -> bool {
    &&& cards.len() == 5
    &&& forall|i: int| 0 <= i < 5 ==> is_card(#[trigger] cards[i])
    &&& cards.no_duplicates()
}

/// What the suits, the bits and the product of five cards are, written
/// out.
pub proof fn lemma_five_cards_unfold(cards: Seq<Card>)
    requires
        cards.len() == 5,
    ensures
        shared_suits(cards) == ((((0xF000u32 & cards[0]) & cards[1]) & cards[2]) & cards[3])
            & cards[4],
        united_bits(cards) == ((((0u32 | cards[0]) | cards[1]) | cards[2]) | cards[3]) | cards[4],
        hand_product(cards) == ((cards[0] & 0x3f) as nat) * ((cards[1] & 0x3f) as nat) * ((cards[2]
            & 0x3f) as nat) * ((cards[3] & 0x3f) as nat) * ((cards[4] & 0x3f) as nat),
{
    let c4 = cards.drop_last();
    let c3 = c4.drop_last();
    let c2 = c3.drop_last();
    let c1 = c2.drop_last();
    let c0 = c1.drop_last();
    assert(c0.len() == 0);
    assert(shared_suits(c0) == 0xF000u32);
    assert(united_bits(c0) == 0u32);
    assert(hand_product(c0) == 1);
    assert(shared_suits(c1) == shared_suits(c0) & cards[0]);
    assert(united_bits(c1) == united_bits(c0) | cards[0]);
    assert(hand_product(c1) == hand_product(c0) * ((cards[0] & 0x3f) as nat));
    assert(shared_suits(c2) == shared_suits(c1) & cards[1]);
    assert(united_bits(c2) == united_bits(c1) | cards[1]);
    assert(hand_product(c2) == hand_product(c1) * ((cards[1] & 0x3f) as nat));
    assert(shared_suits(c3) == shared_suits(c2) & cards[2]);
    assert(united_bits(c3) == united_bits(c2) | cards[2]);
    assert(hand_product(c3) == hand_product(c2) * ((cards[2] & 0x3f) as nat));
    assert(shared_suits(c4) == shared_suits(c3) & cards[3]);
    assert(united_bits(c4) == united_bits(c3) | cards[3]);
    assert(hand_product(c4) == hand_product(c3) * ((cards[3] & 0x3f) as nat));
    assert(shared_suits(cards) == shared_suits(c4) & cards[4]);
    assert(united_bits(cards) == united_bits(c4) | cards[4]);
    assert(hand_product(cards) == hand_product(c4) * ((cards[4] & 0x3f) as nat));
}

/// Five cards that share a suit bit are of one suit, and their ranks
/// fill the rank mask of the hand.
proof fn lemma_flush_fields(
    c0: u32,
    c1: u32,
    c2: u32,
    c3: u32,
    c4: u32,
    r0: u32,
    r1: u32,
    r2: u32,
    r3: u32,
    r4: u32,
)
    by (bit_vector)
    requires
        r0 < 13 && r1 < 13 && r2 < 13 && r3 < 13 && r4 < 13,
        (c0 >> 16) == 1u32 << r0,
        (c1 >> 16) == 1u32 << r1,
        (c2 >> 16) == 1u32 << r2,
        (c3 >> 16) == 1u32 << r3,
        (c4 >> 16) == 1u32 << r4,
        is_suit((c0 >> 12) & 0xf),
        is_suit((c1 >> 12) & 0xf),
        is_suit((c2 >> 12) & 0xf),
        is_suit((c3 >> 12) & 0xf),
        is_suit((c4 >> 12) & 0xf),
        (((((0xF000u32 & c0) & c1) & c2) & c3) & c4) & 0xF000 != 0,
    ensures
        (c0 >> 12) & 0xf == (c1 >> 12) & 0xf,
        (c0 >> 12) & 0xf == (c2 >> 12) & 0xf,
        (c0 >> 12) & 0xf == (c3 >> 12) & 0xf,
        (c0 >> 12) & 0xf == (c4 >> 12) & 0xf,
        (((((0u32 | c0) | c1) | c2) | c3) | c4) >> 16 == (1u32 << r0) | (1u32 << r1) | (1u32 << r2)
            | (1u32 << r3) | (1u32 << r4),
{
}

/// Five different ranks make a mask with five one bits.
pub proof fn lemma_five_bits(r0: u32, r1: u32, r2: u32, r3: u32, r4: u32)
    by (bit_vector)
    requires
        r0 < 13 && r1 < 13 && r2 < 13 && r3 < 13 && r4 < 13,
        r0 != r1 && r0 != r2 && r0 != r3 && r0 != r4,
        r1 != r2 && r1 != r3 && r1 != r4,
        r2 != r3 && r2 != r4,
        r3 != r4,
    ensures
        count_ones((1u32 << r0) | (1u32 << r1) | (1u32 << r2) | (1u32 << r3) | (1u32 << r4)) == 5,
        (1u32 << r0) | (1u32 << r1) | (1u32 << r2) | (1u32 << r3) | (1u32 << r4) < 8192,
{
}

/// The rank mask of a well-formed card sits alone above bit 16.
proof fn lemma_card_top(rank: u32, suit: u32, prime: u32)
    by (bit_vector)
    requires
        rank < 13,
        suit < 16,
        prime < 64,
    ensures
        (((1u32 << rank) << 16) | (suit << 12) | (rank << 8) | prime) >> 16 == 1u32 << rank,
{
}

/// The flush table holds the key of every mask of five ranks.
pub proof fn lemma_flush_table_holds(mask: u32)
    requires
        mask < 8192,
        count_ones(mask) == 5,
    ensures
        rank_set_product(mask) <= u32::MAX,
        flush_table().contains_key(mask_key(mask)),
{
    let straight = mask_keys(straight_masks());
    let plain = mask_keys(plain_flushes(five_rank_masks()));
    let inner = ranked(Map::empty(), straight, 1);
    lemma_five_ranks_fit(mask);
    lemma_ranked_keys(Map::empty(), straight, 1, mask_key(mask));
    lemma_ranked_keys(inner, plain, 323, mask_key(mask));
    if is_straight_mask(mask) {
        let at = choose|at: int| 0 <= at < 10 && straight_masks()[at] == mask;
        assert(straight[at] == mask_key(mask));
    } else {
        lemma_five_rank_masks_hold(mask);
        lemma_plain_flushes_hold(five_rank_masks(), mask);
        let masks = plain_flushes(five_rank_masks());
        let at = choose|at: int| 0 <= at < masks.len() && masks[at] == mask;
        assert(plain[at] == mask_key(mask));
    }
}

/// The bits of five cards above bit 16 are the mask of their ranks.
proof fn lemma_united_ranks(
    c0: u32,
    c1: u32,
    c2: u32,
    c3: u32,
    c4: u32,
    r0: u32,
    r1: u32,
    r2: u32,
    r3: u32,
    r4: u32,
)
    by (bit_vector)
    requires
        (c0 >> 16) == 1u32 << r0,
        (c1 >> 16) == 1u32 << r1,
        (c2 >> 16) == 1u32 << r2,
        (c3 >> 16) == 1u32 << r3,
        (c4 >> 16) == 1u32 << r4,
    ensures
        (((((0u32 | c0) | c1) | c2) | c3) | c4) >> 16 == (1u32 << r0) | (1u32 << r1) | (1u32 << r2)
            | (1u32 << r3) | (1u32 << r4),
{
}

/// The five ranks of a hand.
pub open spec fn hand_ranks(cards: Seq<Card>) -> (u32, u32, u32, u32, u32) {
    (
        card_rank(cards[0]),
        card_rank(cards[1]),
        card_rank(cards[2]),
        card_rank(cards[3]),
        card_rank(cards[4]),
    )
}

/// What the fields of the cards of a hand say of the hand: its product is
/// that of its five ranks, which are not all the same; its bits above
/// bit 16 are the mask of its ranks; and where it is a flush, its ranks
/// are all different.
pub proof fn lemma_hand_fields(cards: Seq<Card>)
    requires
        is_hand(cards),
    ensures
        ({
            let r = hand_ranks(cards);
            &&& r.0 < 13 && r.1 < 13 && r.2 < 13 && r.3 < 13 && r.4 < 13
            &&& !(r.0 == r.1 && r.1 == r.2 && r.2 == r.3 && r.3 == r.4)
            &&& hand_product(cards) == product5(r.0, r.1, r.2, r.3, r.4)
            &&& united_bits(cards) >> 16 == (1u32 << r.0) | (1u32 << r.1) | (1u32 << r.2) | (1u32
                << r.3) | (1u32 << r.4)
            &&& is_flush(cards) ==> equal_pairs(r.0, r.1, r.2, r.3, r.4) == 0
        }),
{
    lemma_five_cards_unfold(cards);
    let r0 = card_rank(cards[0]);
    let r1 = card_rank(cards[1]);
    let r2 = card_rank(cards[2]);
    let r3 = card_rank(cards[3]);
    let r4 = card_rank(cards[4]);
    let s0 = card_suit(cards[0]);
    let s1 = card_suit(cards[1]);
    let s2 = card_suit(cards[2]);
    let s3 = card_suit(cards[3]);
    let s4 = card_suit(cards[4]);
    lemma_card_fields(r0, s0);
    lemma_card_fields(r1, s1);
    lemma_card_fields(r2, s2);
    lemma_card_fields(r3, s3);
    lemma_card_fields(r4, s4);
    assert(cards[0] == pack_card(r0, s0));
    assert(cards[1] == pack_card(r1, s1));
    assert(cards[2] == pack_card(r2, s2));
    assert(cards[3] == pack_card(r3, s3));
    assert(cards[4] == pack_card(r4, s4));
    lemma_card_top(r0, s0, rank_prime(r0 as int) as u32);
    lemma_card_top(r1, s1, rank_prime(r1 as int) as u32);
    lemma_card_top(r2, s2, rank_prime(r2 as int) as u32);
    lemma_card_top(r3, s3, rank_prime(r3 as int) as u32);
    lemma_card_top(r4, s4, rank_prime(r4 as int) as u32);
    lemma_united_ranks(cards[0], cards[1], cards[2], cards[3], cards[4], r0, r1, r2, r3, r4);
    assert(hand_product(cards) == product5(r0, r1, r2, r3, r4)) by {
        reveal(product5);
    }
    assert(!(r0 == r1 && r1 == r2 && r2 == r3 && r3 == r4)) by {
        if r0 == r1 && r1 == r2 && r2 == r3 && r3 == r4 {
            assert(s0 != s1 && s0 != s2 && s0 != s3 && s0 != s4);
            assert(s1 != s2 && s1 != s3 && s1 != s4);
            assert(s2 != s3 && s2 != s4);
            assert(s3 != s4);
        }
    }
    if is_flush(cards) {
        lemma_flush_fields(cards[0], cards[1], cards[2], cards[3], cards[4], r0, r1, r2, r3, r4);
    }
}

/// Every hand has a strength: the tables hold the fingerprint of any five
/// well-formed cards of which no two are the same.
pub proof fn lemma_every_hand_has_a_strength(cards: Seq<Card>)
    requires
        is_hand(cards),
    ensures
        hand_strength(cards) is Ok,
{
    lemma_hand_fields(cards);
    let r = hand_ranks(cards);
    if is_flush(cards) {
        lemma_five_bits(r.0, r.1, r.2, r.3, r.4);
        let mask = united_bits(cards) >> 16;
        lemma_flush_table_holds(mask);
        assert(flush_fingerprint(cards) == rank_set_product(mask));
    } else {
        let _ = lemma_ranks_in_table(r.0, r.1, r.2, r.3, r.4);
    }
}

/// Every board of five or more well-formed cards, no two the same, has a
/// strength.
pub proof fn lemma_every_board_has_a_strength(cards: Seq<Card>)
    requires
        cards.len() >= 5,
        forall|i: int| 0 <= i < cards.len() ==> is_card(#[trigger] cards[i]),
        cards.no_duplicates(),
    ensures
        board_strength(cards) is Ok,
{
    let hands = combinations_of(cards, 5);
    if some_hand_fails(hands) {
        let at = choose|at: int| 0 <= at < hands.len() && #[trigger] hand_strength(hands[at]) is Err;
        let places = lemma_combinations_are_picks(cards, 5, at);
        let hand = pick(cards, places);
        assert(is_hand(hand)) by {
            assert forall|i: int| 0 <= i < 5 implies is_card(#[trigger] hand[i]) by {
                assert(0 <= places[i] < cards.len());
            }
            assert forall|i: int, j: int| 0 <= i < hand.len() && 0 <= j < hand.len() && i
                != j implies hand[i] != hand[j] by {
                assert(0 <= places[i] < cards.len());
                assert(0 <= places[j] < cards.len());
                if i < j {
                    assert(places[i] < places[j]);
                } else {
                    assert(places[j] < places[i]);
                }
            }
        }
        lemma_every_hand_has_a_strength(hand);
    }
}

} // verus!
