//! How many entries the tables hold, and which strength each entry has.
use vstd::prelude::*;
use crate::bits::{count_ones, lemma_patterns_sound, patterns_between};
use crate::combinations::{binomial, lemma_combinations_len};
use crate::coverage::{
    descending, fits, lemma_category_holds, lemma_fits_high_card, lemma_five_bits, mask_of,
    product5,
};
use crate::entries::{
    canon, entry_of, kicks_of, leads_of, leads_well, lemma_canon, lemma_category_key_origin,
    lemma_category_keys_differ, lemma_fits_by_name, lemma_leads_lead_well, lemma_mask_of_product,
    lemma_product5_fits, lemma_straight_key_is_high_card,
};
use crate::lookup::{
    category_keys, five_rank_masks, flush_table, is_straight_key, is_straight_mask, lead_keys,
    leads_keys, lemma_straights_have_five, mask_key, mask_keys, plain_flushes, ranked,
    straight_masks, unsuited_table,
};
use crate::shapes::{
    candidates, kick_size, lead_size, lemma_five_product, ranks_down, shape, shape_key, Category,
};
use crate::strengths::{
    lemma_five_rank_masks_hold, lemma_mask_key_injective, lemma_plain_flushes_hold, lemma_ranked_at,
    lemma_ranked_keys, lemma_ranked_value,
};

verus! {

/// The patterns of a range are those of its lower part followed by those
/// of its upper part.
pub proof fn lemma_patterns_split(a: nat, b: nat, c: nat, ones: int)
    requires
        a <= b <= c,
    ensures
        patterns_between(a, c, ones) == patterns_between(a, b, ones) + patterns_between(
            b,
            c,
            ones,
        ),
    decreases b - a,
{
    if a == b {
        assert(patterns_between(a, b, ones) =~= Seq::<u32>::empty());
        assert(patterns_between(a, c, ones) =~= Seq::<u32>::empty() + patterns_between(b, c, ones));
    } else {
        lemma_patterns_split(a + 1, b, c, ones);
        let rest_c = patterns_between(a + 1, c, ones);
        let rest_b = patterns_between(a + 1, b, ones);
        let upper = patterns_between(b, c, ones);
        if count_ones(a as u32) == ones {
            assert(seq![a as u32] + (rest_b + upper) =~= (seq![a as u32] + rest_b) + upper);
        }
    }
}

/// Setting a bit above a word adds one to its number of one bits.
proof fn lemma_top_bit_counts(n: u32, x: u32)
    by (bit_vector)
    requires
        n < 32,
        x < (1u32 << n),
    ensures
        count_ones(((1u32 << n) + x) as u32) == count_ones(x) + 1,
        (1u32 << n) + x <= 0xffff_ffffu32,
        count_ones(x) >= 0,
{
}

/// Above a power of two there are as many patterns with `ones` one bits
/// as there are below it with one bit less.
proof fn lemma_patterns_above(n: u32, a: nat, b: nat, ones: int)
    requires
        n < 31,
        a <= b <= (1u32 << n),
    ensures
        patterns_between(((1u32 << n) + a) as nat, ((1u32 << n) + b) as nat, ones).len() == patterns_between(
            a,
            b,
            ones - 1,
        ).len(),
    decreases b - a,
{
    if a < b {
        lemma_patterns_above(n, a + 1, b, ones);
        lemma_top_bit_counts(n, a as u32);
    }
}

/// There are `n` choose `k` patterns with `k` one bits below two to the
/// power `n`.
pub proof fn lemma_patterns_count(n: u32, k: int)
    requires
        n < 32,
    ensures
        patterns_between(0, (1u32 << n) as nat, k).len() == if k < 0 {
            0
        } else {
            binomial(n as nat, k as nat)
        },
    decreases n,
{
    if n == 0 {
        assert(1u32 << 0u32 == 1) by (bit_vector);
        assert(count_ones(0u32) == 0) by (bit_vector);
        assert(patterns_between(1, 1, k) =~= Seq::<u32>::empty());
    } else {
        let m = (n - 1) as u32;
        let half = (1u32 << m) as nat;
        assert(1u32 << n == 2 * (1u32 << m)) by (bit_vector)
            requires
                0 < n < 32,
                m == n - 1,
        ;
        lemma_patterns_count(m, k);
        lemma_patterns_count(m, k - 1);
        lemma_patterns_split(0, half, 2 * half, k);
        lemma_patterns_above(m, 0, half, k);
    }
}

/// The rows of Pascal's triangle down to the thirteenth, as far as five.
pub proof fn lemma_binomial_table()
    ensures
        binomial(13, 5) == 1287,
        binomial(13, 1) == 13,
        binomial(13, 2) == 78,
        binomial(12, 1) == 12,
        binomial(12, 2) == 66,
        binomial(12, 3) == 220,
        binomial(11, 1) == 11,
        forall|n: nat| n < 4 ==> binomial(n, 4) == 0,
        binomial(4, 4) == 1,
        binomial(5, 4) == 5,
        binomial(6, 4) == 15,
        binomial(7, 4) == 35,
        binomial(8, 4) == 70,
        binomial(9, 4) == 126,
        binomial(10, 4) == 210,
        binomial(11, 4) == 330,
        binomial(12, 4) == 495,
{
    assert(binomial(0, 0) == 1);
    assert(binomial(0, 1) == 0);
    assert(binomial(0, 2) == 0);
    assert(binomial(0, 3) == 0);
    assert(binomial(0, 4) == 0);
    assert(binomial(0, 5) == 0);
    assert(binomial(1, 0) == 1);
    assert(binomial(1, 1) == 1);
    assert(binomial(1, 2) == 0);
    assert(binomial(1, 3) == 0);
    assert(binomial(1, 4) == 0);
    assert(binomial(1, 5) == 0);
    assert(binomial(2, 0) == 1);
    assert(binomial(2, 1) == 2);
    assert(binomial(2, 2) == 1);
    assert(binomial(2, 3) == 0);
    assert(binomial(2, 4) == 0);
    assert(binomial(2, 5) == 0);
    assert(binomial(3, 0) == 1);
    assert(binomial(3, 1) == 3);
    assert(binomial(3, 2) == 3);
    assert(binomial(3, 3) == 1);
    assert(binomial(3, 4) == 0);
    assert(binomial(3, 5) == 0);
    assert(binomial(4, 0) == 1);
    assert(binomial(4, 1) == 4);
    assert(binomial(4, 2) == 6);
    assert(binomial(4, 3) == 4);
    assert(binomial(4, 4) == 1);
    assert(binomial(4, 5) == 0);
    assert(binomial(5, 0) == 1);
    assert(binomial(5, 1) == 5);
    assert(binomial(5, 2) == 10);
    assert(binomial(5, 3) == 10);
    assert(binomial(5, 4) == 5);
    assert(binomial(5, 5) == 1);
    assert(binomial(6, 0) == 1);
    assert(binomial(6, 1) == 6);
    assert(binomial(6, 2) == 15);
    assert(binomial(6, 3) == 20);
    assert(binomial(6, 4) == 15);
    assert(binomial(6, 5) == 6);
    assert(binomial(7, 0) == 1);
    assert(binomial(7, 1) == 7);
    assert(binomial(7, 2) == 21);
    assert(binomial(7, 3) == 35);
    assert(binomial(7, 4) == 35);
    assert(binomial(7, 5) == 21);
    assert(binomial(8, 0) == 1);
    assert(binomial(8, 1) == 8);
    assert(binomial(8, 2) == 28);
    assert(binomial(8, 3) == 56);
    assert(binomial(8, 4) == 70);
    assert(binomial(8, 5) == 56);
    assert(binomial(9, 0) == 1);
    assert(binomial(9, 1) == 9);
    assert(binomial(9, 2) == 36);
    assert(binomial(9, 3) == 84);
    assert(binomial(9, 4) == 126);
    assert(binomial(9, 5) == 126);
    assert(binomial(10, 0) == 1);
    assert(binomial(10, 1) == 10);
    assert(binomial(10, 2) == 45);
    assert(binomial(10, 3) == 120);
    assert(binomial(10, 4) == 210);
    assert(binomial(10, 5) == 252);
    assert(binomial(11, 0) == 1);
    assert(binomial(11, 1) == 11);
    assert(binomial(11, 2) == 55);
    assert(binomial(11, 3) == 165);
    assert(binomial(11, 4) == 330);
    assert(binomial(11, 5) == 462);
    assert(binomial(12, 0) == 1);
    assert(binomial(12, 1) == 12);
    assert(binomial(12, 2) == 66);
    assert(binomial(12, 3) == 220);
    assert(binomial(12, 4) == 495);
    assert(binomial(12, 5) == 792);
    assert(binomial(13, 0) == 1);
    assert(binomial(13, 1) == 13);
    assert(binomial(13, 2) == 78);
    assert(binomial(13, 3) == 286);
    assert(binomial(13, 4) == 715);
    assert(binomial(13, 5) == 1287);
    assert forall|n: nat| n < 4 implies binomial(n, 4) == 0 by {
        if n == 0 {
        } else if n == 1 {
        } else if n == 2 {
        } else {
        }
    }
}

/// How many of the masks are straights.
pub open spec fn straights_in(masks: Seq<u32>) -> nat
    decreases masks.len(),
{
    if masks.len() == 0 {
        0
    } else {
        straights_in(masks.drop_last()) + if is_straight_mask(masks.last()) {
            1nat
        } else {
            0nat
        }
    }
}

/// Each mask is a straight or is kept among the plain flushes.
pub proof fn lemma_plain_or_straight(masks: Seq<u32>)
    ensures
        plain_flushes(masks).len() + straights_in(masks) == masks.len(),
    decreases masks.len(),
{
    if masks.len() > 0 {
        lemma_plain_or_straight(masks.drop_last());
    }
}

/// The straights of two runs of masks add up.
pub proof fn lemma_straights_in_concat(a: Seq<u32>, b: Seq<u32>)
    ensures
        straights_in(a + b) == straights_in(a) + straights_in(b),
    decreases b.len(),
{
    if b.len() == 0 {
        assert(a + b =~= a);
    } else {
        lemma_straights_in_concat(a, b.drop_last());
        assert((a + b).drop_last() =~= a + b.drop_last());
    }
}

/// A stretch without a straight counts none.
pub proof fn lemma_no_straights(a: nat, b: nat)
    requires
        b <= 8192,
        forall|x: u32| a <= x < b ==> !is_straight_mask(x),
    ensures
        straights_in(patterns_between(a, b, 5)) == 0,
{
    lemma_patterns_sound(a, b, 5);
    lemma_none_counted(patterns_between(a, b, 5));
}

/// Masks of which none is a straight count no straight.
proof fn lemma_none_counted(masks: Seq<u32>)
    requires
        forall|i: int| 0 <= i < masks.len() ==> !is_straight_mask(#[trigger] masks[i]),
    ensures
        straights_in(masks) == 0,
    decreases masks.len(),
{
    if masks.len() > 0 {
        assert(!is_straight_mask(masks[masks.len() - 1]));
        assert forall|i: int| 0 <= i < masks.drop_last().len() implies !is_straight_mask(
            #[trigger] masks.drop_last()[i],
        ) by {
            assert(masks.drop_last()[i] == masks[i]);
        }
        lemma_none_counted(masks.drop_last());
    }
}

/// A stretch that runs up to a straight and on counts one straight more
/// than what follows the straight.
proof fn lemma_straight_counted(a: nat, s: nat, to: nat)
    requires
        a <= s < to <= 8192,
        is_straight_mask(s as u32),
        forall|x: u32| a <= x < s ==> !is_straight_mask(x),
    ensures
        straights_in(patterns_between(a, to, 5)) == 1 + straights_in(
            patterns_between(s + 1, to, 5),
        ),
{
    lemma_straights_have_five(s as u32);
    lemma_patterns_split(a, s, to, 5);
    lemma_patterns_split(s, s + 1, to, 5);
    lemma_no_straights(a, s);
    let one = patterns_between(s, s + 1, 5);
    assert(patterns_between(s + 1, s + 1, 5) =~= Seq::<u32>::empty());
    assert(one =~= seq![s as u32]);
    assert(one.drop_last() =~= Seq::<u32>::empty());
    assert(straights_in(one) == 1) by {
        assert(straights_in(one.drop_last()) == 0);
    }
    lemma_straights_in_concat(one, patterns_between(s + 1, to, 5));
    lemma_straights_in_concat(patterns_between(a, s, 5), patterns_between(s, to, 5));
}

/// Ten of the masks of five ranks are straights.
pub proof fn lemma_ten_straights()
    ensures
        straights_in(five_rank_masks()) == 10,
{
    lemma_straight_counted(0, 0x1f, 8192);
    lemma_straight_counted(0x20, 0x3e, 8192);
    lemma_straight_counted(0x3f, 0x7c, 8192);
    lemma_straight_counted(0x7d, 0xf8, 8192);
    lemma_straight_counted(0xf9, 0x1f0, 8192);
    lemma_straight_counted(0x1f1, 0x3e0, 8192);
    lemma_straight_counted(0x3e1, 0x7c0, 8192);
    lemma_straight_counted(0x7c1, 0xf80, 8192);
    lemma_straight_counted(0xf81, 0x100f, 8192);
    lemma_straight_counted(0x1010, 0x1f00, 8192);
    lemma_no_straights(0x1f01, 8192);
}

/// There are 1287 masks of five ranks, 1277 of them no straights.
pub proof fn lemma_flush_census()
    ensures
        five_rank_masks().len() == 1287,
        plain_flushes(five_rank_masks()).len() == 1277,
{
    assert(1u32 << 13u32 == 8192) by (bit_vector);
    lemma_patterns_count(13, 5);
    lemma_binomial_table();
    lemma_ten_straights();
    lemma_plain_or_straight(five_rank_masks());
}

/// Entering keys that are all new, and all different, makes the table
/// larger by their number.
pub proof fn lemma_ranked_len(table: Map<u32, u32>, keys: Seq<u32>, first: int)
    requires
        table.dom().finite(),
        keys.no_duplicates(),
        forall|i: int| 0 <= i < keys.len() ==> !table.contains_key(#[trigger] keys[i]),
    ensures
        ranked(table, keys, first).dom().finite(),
        ranked(table, keys, first).len() == table.len() + keys.len(),
    decreases keys.len(),
{
    if keys.len() > 0 {
        let before = keys.drop_last();
        assert forall|i: int| 0 <= i < before.len() implies !table.contains_key(
            #[trigger] before[i],
        ) by {
            assert(before[i] == keys[i]);
        }
        lemma_ranked_len(table, before, first);
        lemma_ranked_keys(table, before, first, keys.last());
        assert(!before.contains(keys.last())) by {
            if before.contains(keys.last()) {
                let i = choose|i: int| 0 <= i < before.len() && before[i] == keys.last();
                assert(keys[i] == keys[keys.len() - 1]);
            }
        }
        assert(!table.contains_key(keys[keys.len() - 1]));
    }
}

/// The plain flushes of ascending masks descend.
pub proof fn lemma_plain_flushes_descend(masks: Seq<u32>)
    requires
        forall|i: int, j: int| 0 <= i < j < masks.len() ==> masks[i] < masks[j],
    ensures
        forall|i: int, j: int|
            0 <= i < j < plain_flushes(masks).len() ==> plain_flushes(masks)[i] > plain_flushes(
                masks,
            )[j],
    decreases masks.len(),
{
    if masks.len() > 0 {
        let before = masks.drop_last();
        let rest = plain_flushes(before);
        lemma_plain_flushes_descend(before);
        if !is_straight_mask(masks.last()) {
            let all = plain_flushes(masks);
            assert forall|i: int, j: int| 0 <= i < j < all.len() implies all[i] > all[j] by {
                assert(all[j] == rest[j - 1]);
                if i == 0 {
                    assert(rest.contains(rest[j - 1]));
                    lemma_plain_flushes_hold(before, rest[j - 1]);
                    let at = choose|at: int| 0 <= at < before.len() && before[at] == rest[j - 1];
                    assert(masks[at] < masks[masks.len() - 1]);
                } else {
                    assert(all[i] == rest[i - 1]);
                }
            }
        }
    }
}

/// The keys of the flush table, in the order in which they are entered,
/// are all different.
pub proof fn lemma_flush_keys_differ()
    ensures
        mask_keys(straight_masks()).no_duplicates(),
        mask_keys(plain_flushes(five_rank_masks())).no_duplicates(),
        forall|i: int|
            0 <= i < mask_keys(plain_flushes(five_rank_masks())).len() ==> !mask_keys(
                straight_masks(),
            ).contains(#[trigger] mask_keys(plain_flushes(five_rank_masks()))[i]),
{
    let straight = straight_masks();
    let plain = plain_flushes(five_rank_masks());
    lemma_patterns_sound(0, 8192, 5);
    lemma_plain_flushes_descend(five_rank_masks());
    assert forall|i: int| 0 <= i < plain.len() implies (#[trigger] plain[i]) < 8192 && count_ones(
        plain[i],
    ) == 5 && !is_straight_mask(plain[i]) by {
        assert(plain.contains(plain[i]));
        lemma_plain_flushes_hold(five_rank_masks(), plain[i]);
        lemma_five_rank_masks_hold(plain[i]);
    }
    assert forall|i: int| 0 <= i < straight.len() implies (#[trigger] straight[i]) < 8192
        && count_ones(straight[i]) == 5 && is_straight_mask(straight[i]) by {
        lemma_straights_have_five(straight[i]);
    }
    assert forall|i: int, j: int|
        0 <= i < straight.len() && 0 <= j < straight.len() && i != j implies mask_keys(straight)[i]
        != mask_keys(straight)[j] by {
        if mask_key(straight[i]) == mask_key(straight[j]) {
            lemma_mask_key_injective(straight[i], straight[j]);
        }
    }
    assert forall|i: int, j: int|
        0 <= i < plain.len() && 0 <= j < plain.len() && i != j implies mask_keys(plain)[i]
        != mask_keys(plain)[j] by {
        if mask_key(plain[i]) == mask_key(plain[j]) {
            lemma_mask_key_injective(plain[i], plain[j]);
            if i < j {
                assert(plain[i] > plain[j]);
            } else {
                assert(plain[j] > plain[i]);
            }
        }
    }
    assert forall|i: int| 0 <= i < mask_keys(plain).len() implies !mask_keys(straight).contains(
        #[trigger] mask_keys(plain)[i],
    ) by {
        if mask_keys(straight).contains(mask_keys(plain)[i]) {
            let j = choose|j: int|
                0 <= j < mask_keys(straight).len() && mask_keys(straight)[j] == mask_keys(plain)[i];
            lemma_mask_key_injective(straight[j], plain[i]);
        }
    }
}

/// The flush table has 1287 entries.
pub proof fn lemma_flush_table_size()
    ensures
        flush_table().dom().finite(),
        flush_table().len() == 1287,
{
    let straight = mask_keys(straight_masks());
    let plain = mask_keys(plain_flushes(five_rank_masks()));
    let inner = ranked(Map::empty(), straight, 1);
    lemma_flush_keys_differ();
    lemma_flush_census();
    lemma_ranked_len(Map::empty(), straight, 1);
    assert forall|i: int| 0 <= i < plain.len() implies !inner.contains_key(#[trigger] plain[i]) by {
        lemma_ranked_keys(Map::empty(), straight, 1, plain[i]);
    }
    lemma_ranked_len(inner, plain, 323);
}

/// In the flush table each straight flush has its place among the
/// straights, counted from 1, as its strength, and each other flush its
/// place among the plain flushes, counted from 323.
pub proof fn lemma_flush_table_exact(at: int)
    ensures
        0 <= at < 10 ==> flush_table().contains_key(mask_key(straight_masks()[at]))
            && flush_table()[mask_key(straight_masks()[at])] == 1 + at,
        0 <= at < 1277 ==> flush_table().contains_key(
            mask_key(plain_flushes(five_rank_masks())[at]),
        ) && flush_table()[mask_key(plain_flushes(five_rank_masks())[at])] == 323 + at,
{
    let straight = mask_keys(straight_masks());
    let plain = mask_keys(plain_flushes(five_rank_masks()));
    let inner = ranked(Map::empty(), straight, 1);
    lemma_flush_keys_differ();
    lemma_flush_census();
    if 0 <= at < 10 {
        lemma_ranked_at(Map::empty(), straight, 1, at);
        let key = straight[at];
        assert(!plain.contains(key)) by {
            if plain.contains(key) {
                let i = choose|i: int| 0 <= i < plain.len() && plain[i] == key;
                assert(straight.contains(plain[i]));
            }
        }
        lemma_ranked_keys(inner, plain, 323, key);
        lemma_ranked_value(inner, plain, 323, key);
    }
    if 0 <= at < 1277 {
        lemma_ranked_at(inner, plain, 323, at);
    }
}

/// How many of the ranks below `below` are skipped.
pub open spec fn skipped(below: nat, skip: Seq<u32>) -> nat
    decreases below,
{
    if below == 0 {
        0
    } else {
        skipped((below - 1) as nat, skip) + if skip.contains((below - 1) as u32) {
            1nat
        } else {
            0nat
        }
    }
}

/// Each rank below the bound is listed or skipped.
pub proof fn lemma_ranks_down_len(below: nat, skip: Seq<u32>)
    ensures
        ranks_down(below, skip).len() + skipped(below, skip) == below,
    decreases below,
{
    if below > 0 {
        lemma_ranks_down_len((below - 1) as nat, skip);
    }
}

/// Of the ranks below a bound, as many are skipped as there are leading
/// ranks below it.
proof fn lemma_skipped_leads(below: nat, lead: Seq<u32>)
    requires
        below <= 13,
        descending(lead),
        1 <= lead.len() <= 2,
    ensures
        skipped(below, lead) == (if lead[0] < below {
            1nat
        } else {
            0nat
        }) + (if lead.len() == 2 && lead[1] < below {
            1nat
        } else {
            0nat
        }),
    decreases below,
{
    if below > 0 {
        lemma_skipped_leads((below - 1) as nat, lead);
        let r = (below - 1) as u32;
        if lead.contains(r) {
            let i = choose|i: int| 0 <= i < lead.len() && lead[i] == r;
            if lead.len() == 2 {
                assert(lead[0] > lead[1]);
            }
        } else {
            assert(lead[0] != r);
            if lead.len() == 2 {
                assert(lead[1] != r);
            }
        }
    }
}

/// Under leading ranks of a category other than the high cards there is
/// one key for each choice of kickers.
pub proof fn lemma_lead_keys_len(cat: Category, lead: Seq<u32>, kicks: Seq<Seq<u32>>)
    requires
        cat != Category::HighCard,
    ensures
        lead_keys(cat, lead, kicks).len() == kicks.len(),
    decreases kicks.len(),
{
    if kicks.len() > 0 {
        lemma_lead_keys_len(cat, lead, kicks.drop_last());
    }
}

/// The number of choices of kickers under leading ranks of a category
/// other than the high cards.
pub open spec fn kicks_per_lead(cat: Category) -> nat {
    binomial((13 - lead_size(cat)) as nat, kick_size(cat))
}

/// A run of leading groups of a category other than the high cards has
/// as many keys as there are groups, times the choices of kickers.
pub proof fn lemma_leads_keys_len(cat: Category, leads: Seq<Seq<u32>>)
    requires
        cat != Category::HighCard,
        forall|at: int| 0 <= at < leads.len() ==> leads_well(cat, #[trigger] leads[at]),
    ensures
        leads_keys(cat, leads).len() == leads.len() * kicks_per_lead(cat),
    decreases leads.len(),
{
    if leads.len() > 0 {
        let short = leads.drop_last();
        let last = leads.last();
        assert forall|at: int| 0 <= at < short.len() implies leads_well(cat, #[trigger] short[at]) by {
            assert(short[at] == leads[at]);
        }
        lemma_leads_keys_len(cat, short);
        assert(leads_well(cat, leads[leads.len() - 1]));
        lemma_lead_keys_len(cat, last, kicks_of(cat, last));
        lemma_ranks_down_len(13, last);
        lemma_skipped_leads(13, last);
        assert(last[0] < 13);
        if last.len() == 2 {
            assert(last[1] < 13);
        }
        lemma_combinations_len(candidates(cat, last), kick_size(cat));
        let per = kicks_per_lead(cat);
        assert((short.len() + 1) * per == short.len() * per + per) by (nonlinear_arith);
    } else {
        assert(0 * kicks_per_lead(cat) == 0) by (nonlinear_arith);
    }
}

/// How many hands each category other than the high cards has.
pub proof fn lemma_category_census()
    ensures
        category_keys(Category::Quads).len() == 156,
        category_keys(Category::FullHouse).len() == 156,
        category_keys(Category::Trips).len() == 858,
        category_keys(Category::TwoPair).len() == 858,
        category_keys(Category::Pair).len() == 2860,
{
    lemma_binomial_table();
    let all = ranks_down(13, Seq::empty());
    lemma_ranks_down_len(13, Seq::empty());
    assert(skipped(13, Seq::<u32>::empty()) == 0) by {
        lemma_nothing_skipped(13);
    }
    lemma_combinations_len(all, 1);
    lemma_combinations_len(all, 2);
    lemma_leads_lead_well(Category::Quads);
    lemma_leads_lead_well(Category::FullHouse);
    lemma_leads_lead_well(Category::Trips);
    lemma_leads_lead_well(Category::TwoPair);
    lemma_leads_lead_well(Category::Pair);
    lemma_leads_keys_len(Category::Quads, leads_of(Category::Quads));
    lemma_leads_keys_len(Category::FullHouse, leads_of(Category::FullHouse));
    lemma_leads_keys_len(Category::Trips, leads_of(Category::Trips));
    lemma_leads_keys_len(Category::TwoPair, leads_of(Category::TwoPair));
    lemma_leads_keys_len(Category::Pair, leads_of(Category::Pair));
    assert(13 * 12 == 156 && 13 * 66 == 858 && 78 * 11 == 858 && 13 * 220 == 2860);
}

/// Where no rank is to be skipped, none is.
proof fn lemma_nothing_skipped(below: nat)
    ensures
        skipped(below, Seq::<u32>::empty()) == 0,
    decreases below,
{
    if below > 0 {
        lemma_nothing_skipped((below - 1) as nat);
    }
}

/// The highest rank that a mask holds; 0 where it holds none.
pub open spec fn top_rank(bits: u32) -> u32 {
    if bits & 0x1000 != 0 {
        12
    } else if bits & 0x800 != 0 {
        11
    } else if bits & 0x400 != 0 {
        10
    } else if bits & 0x200 != 0 {
        9
    } else if bits & 0x100 != 0 {
        8
    } else if bits & 0x80 != 0 {
        7
    } else if bits & 0x40 != 0 {
        6
    } else if bits & 0x20 != 0 {
        5
    } else if bits & 0x10 != 0 {
        4
    } else if bits & 0x8 != 0 {
        3
    } else if bits & 0x4 != 0 {
        2
    } else if bits & 0x2 != 0 {
        1
    } else {
        0
    }
}

/// A mask without its highest rank.
pub open spec fn below_top(bits: u32) -> u32 {
    bits & !(1u32 << top_rank(bits))
}

/// A mask of five ranks is the mask of its five highest ranks, which
/// descend.
proof fn lemma_mask_ranks(
    m: u32,
    m1: u32,
    m2: u32,
    m3: u32,
    m4: u32,
    c0: u32,
    c1: u32,
    c2: u32,
    c3: u32,
    c4: u32,
)
    by (bit_vector)
    requires
        m < 8192,
        count_ones(m) == 5,
        c0 == top_rank(m),
        m1 == m & !(1u32 << c0),
        c1 == top_rank(m1),
        m2 == m1 & !(1u32 << c1),
        c2 == top_rank(m2),
        m3 == m2 & !(1u32 << c2),
        c3 == top_rank(m3),
        m4 == m3 & !(1u32 << c3),
        c4 == top_rank(m4),
    ensures
        13 > c0 > c1 > c2 > c3 > c4,
        (1u32 << c0) | (1u32 << c1) | (1u32 << c2) | (1u32 << c3) | (1u32 << c4) == m,
{
}

/// The keys of the high cards are the keys of the plain flushes.
pub proof fn lemma_high_cards_are_plain_flushes(key: u32)
    ensures
        category_keys(Category::HighCard).contains(key) <==> mask_keys(
            plain_flushes(five_rank_masks()),
        ).contains(key),
{
    let high = category_keys(Category::HighCard);
    let plain = plain_flushes(five_rank_masks());
    let keys = mask_keys(plain);
    if high.contains(key) {
        let at = choose|at: int| 0 <= at < high.len() && high[at] == key;
        let hand = lemma_category_key_origin(Category::HighCard, at);
        lemma_fits_by_name(Category::HighCard, hand.0, hand.1);
        lemma_canon(Category::HighCard, hand.0, hand.1);
        let c = canon(entry_of(Category::HighCard, hand.0, hand.1));
        lemma_five_bits(c.0, c.1, c.2, c.3, c.4);
        lemma_mask_of_product(c);
        lemma_product5_fits(c.0, c.1, c.2, c.3, c.4);
        let m = mask_of(c);
        assert(mask_key(m) == key);
        if is_straight_mask(m) {
            let j = choose|j: int| 0 <= j < 10 && straight_masks()[j] == m;
            assert(mask_keys(straight_masks())[j] == key);
        }
        lemma_five_rank_masks_hold(m);
        lemma_plain_flushes_hold(five_rank_masks(), m);
        let i = choose|i: int| 0 <= i < plain.len() && plain[i] == m;
        assert(keys[i] == key);
    }
    if keys.contains(key) {
        let i = choose|i: int| 0 <= i < keys.len() && keys[i] == key;
        let m = plain[i];
        assert(plain.contains(m));
        lemma_plain_flushes_hold(five_rank_masks(), m);
        lemma_five_rank_masks_hold(m);
        let m1 = below_top(m);
        let m2 = below_top(m1);
        let m3 = below_top(m2);
        let m4 = below_top(m3);
        let c = (top_rank(m), top_rank(m1), top_rank(m2), top_rank(m3), top_rank(m4));
        lemma_mask_ranks(m, m1, m2, m3, m4, c.0, c.1, c.2, c.3, c.4);
        assert(mask_of(c) == m);
        lemma_mask_of_product(c);
        lemma_product5_fits(c.0, c.1, c.2, c.3, c.4);
        lemma_fits_high_card(c.0, c.1, c.2, c.3, c.4);
        let lead = seq![c.0];
        let kick = seq![c.1, c.2, c.3, c.4];
        let made = shape(Category::HighCard, lead, kick);
        assert(made =~= seq![c.0, c.1, c.2, c.3, c.4]);
        lemma_five_product(c.0, c.1, c.2, c.3, c.4);
        assert(shape_key(Category::HighCard, lead, kick) == key) by {
            reveal(product5);
        }
        if is_straight_key(key) {
            let straight = mask_keys(straight_masks());
            let j = choose|j: int| 0 <= j < straight.len() && straight[j] == key;
            lemma_straights_have_five(straight_masks()[j]);
            lemma_mask_key_injective(straight_masks()[j], m);
        }
        lemma_category_holds(Category::HighCard, lead, kick);
    }
}

/// There are 1277 high cards.
pub proof fn lemma_high_card_census()
    ensures
        category_keys(Category::HighCard).len() == 1277,
{
    let high = category_keys(Category::HighCard);
    let keys = mask_keys(plain_flushes(five_rank_masks()));
    lemma_category_keys_differ(Category::HighCard, Category::HighCard);
    lemma_flush_keys_differ();
    lemma_flush_census();
    high.unique_seq_to_set();
    keys.unique_seq_to_set();
    assert(high.to_set() =~= keys.to_set()) by {
        assert forall|key: u32| high.to_set().contains(key) <==> keys.to_set().contains(key) by {
            lemma_high_cards_are_plain_flushes(key);
        }
    }
}

/// The keys of the unsuited table that are entered from 11 on.
pub open spec fn upper_keys() -> Seq<u32> {
    category_keys(Category::Quads) + category_keys(Category::FullHouse)
}

/// The keys of the unsuited table that are entered from 1610 on.
pub open spec fn lower_keys() -> Seq<u32> {
    category_keys(Category::Trips) + category_keys(Category::TwoPair) + category_keys(
        Category::Pair,
    ) + category_keys(Category::HighCard)
}

/// The strength of the strongest hand of a category.
pub open spec fn band_start(cat: Category) -> nat {
    match cat {
        Category::Quads => 11,
        Category::FullHouse => 167,
        Category::Trips => 1610,
        Category::TwoPair => 2468,
        Category::Pair => 3326,
        Category::HighCard => 6186,
    }
}

/// Where the keys of a category stand among those of its run.
pub proof fn lemma_category_place(cat: Category, at: int)
    requires
        0 <= at < category_keys(cat).len(),
    ensures
        (cat == Category::Quads || cat == Category::FullHouse) ==> 0 <= band_start(cat) - 11 + at
            < upper_keys().len() && upper_keys()[band_start(cat) - 11 + at] == category_keys(
            cat,
        )[at],
        !(cat == Category::Quads || cat == Category::FullHouse) ==> 0 <= band_start(cat) - 1610
            + at < lower_keys().len() && lower_keys()[band_start(cat) - 1610 + at]
            == category_keys(cat)[at],
        upper_keys().len() == 312,
        lower_keys().len() == 5853,
{
    lemma_category_census();
    lemma_high_card_census();
}

/// A key of the six categories is in the run of its category only.
proof fn lemma_run_of_category(cat: Category, at: int)
    requires
        0 <= at < category_keys(cat).len(),
    ensures
        !is_straight_key(category_keys(cat)[at]),
        (cat == Category::Quads || cat == Category::FullHouse) ==> !lower_keys().contains(
            category_keys(cat)[at],
        ),
        !(cat == Category::Quads || cat == Category::FullHouse) ==> !upper_keys().contains(
            category_keys(cat)[at],
        ),
{
    let key = category_keys(cat)[at];
    let hand = lemma_category_key_origin(cat, at);
    if is_straight_key(key) {
        lemma_straight_key_is_high_card(cat, hand.0, hand.1);
    }
    lemma_category_keys_differ(cat, Category::Quads);
    lemma_category_keys_differ(cat, Category::FullHouse);
    lemma_category_keys_differ(cat, Category::Trips);
    lemma_category_keys_differ(cat, Category::TwoPair);
    lemma_category_keys_differ(cat, Category::Pair);
    lemma_category_keys_differ(cat, Category::HighCard);
    if lower_keys().contains(key) {
        let i = choose|i: int| 0 <= i < lower_keys().len() && lower_keys()[i] == key;
        lemma_lower_place(i);
    }
    if upper_keys().contains(key) {
        let i = choose|i: int| 0 <= i < upper_keys().len() && upper_keys()[i] == key;
        lemma_upper_place(i);
    }
}

/// Each key of the upper run is a key of one of its two categories.
proof fn lemma_upper_place(i: int)
    requires
        0 <= i < upper_keys().len(),
    ensures
        ({
            let quads = category_keys(Category::Quads);
            let full = category_keys(Category::FullHouse);
            if i < quads.len() {
                upper_keys()[i] == quads[i]
            } else {
                0 <= i - quads.len() < full.len() && upper_keys()[i] == full[i - quads.len()]
            }
        }),
{
}

/// Each key of the lower run is a key of one of its four categories.
proof fn lemma_lower_place(i: int)
    requires
        0 <= i < lower_keys().len(),
    ensures
        ({
            let trips = category_keys(Category::Trips);
            let two = category_keys(Category::TwoPair);
            let pair = category_keys(Category::Pair);
            let high = category_keys(Category::HighCard);
            if i < trips.len() {
                lower_keys()[i] == trips[i]
            } else if i < trips.len() + two.len() {
                lower_keys()[i] == two[i - trips.len()]
            } else if i < trips.len() + two.len() + pair.len() {
                lower_keys()[i] == pair[i - trips.len() - two.len()]
            } else {
                0 <= i - trips.len() - two.len() - pair.len() < high.len() && lower_keys()[i]
                    == high[i - trips.len() - two.len() - pair.len()]
            }
        }),
{
}

/// The keys of the unsuited table, in the order in which they are
/// entered, are all different.
pub proof fn lemma_unsuited_keys_differ()
    ensures
        upper_keys().no_duplicates(),
        lower_keys().no_duplicates(),
        mask_keys(straight_masks()).no_duplicates(),
        forall|i: int|
            0 <= i < upper_keys().len() ==> !is_straight_key(#[trigger] upper_keys()[i])
                && !lower_keys().contains(upper_keys()[i]),
        forall|i: int| 0 <= i < lower_keys().len() ==> !is_straight_key(#[trigger] lower_keys()[i]),
{
    let quads = category_keys(Category::Quads);
    let full = category_keys(Category::FullHouse);
    let trips = category_keys(Category::Trips);
    let two = category_keys(Category::TwoPair);
    let pair = category_keys(Category::Pair);
    let high = category_keys(Category::HighCard);
    lemma_flush_keys_differ();
    lemma_category_keys_differ(Category::Quads, Category::FullHouse);
    lemma_category_keys_differ(Category::FullHouse, Category::Quads);
    vstd::seq_lib::lemma_no_dup_in_concat(quads, full);
    lemma_category_keys_differ(Category::Trips, Category::TwoPair);
    lemma_category_keys_differ(Category::TwoPair, Category::Pair);
    lemma_category_keys_differ(Category::Pair, Category::HighCard);
    lemma_category_keys_differ(Category::HighCard, Category::Trips);
    lemma_category_keys_differ(Category::Trips, Category::Pair);
    lemma_category_keys_differ(Category::Trips, Category::HighCard);
    lemma_category_keys_differ(Category::TwoPair, Category::HighCard);
    vstd::seq_lib::lemma_no_dup_in_concat(trips, two);
    vstd::seq_lib::lemma_no_dup_in_concat(trips + two, pair);
    vstd::seq_lib::lemma_no_dup_in_concat(trips + two + pair, high);
    assert forall|i: int| 0 <= i < upper_keys().len() implies !is_straight_key(
        #[trigger] upper_keys()[i],
    ) && !lower_keys().contains(upper_keys()[i]) by {
        lemma_upper_place(i);
        if i < quads.len() {
            lemma_run_of_category(Category::Quads, i);
        } else {
            lemma_run_of_category(Category::FullHouse, i - quads.len());
        }
    }
    assert forall|i: int| 0 <= i < lower_keys().len() implies !is_straight_key(
        #[trigger] lower_keys()[i],
    ) by {
        lemma_lower_place(i);
        if i < trips.len() {
            lemma_run_of_category(Category::Trips, i);
        } else if i < trips.len() + two.len() {
            lemma_run_of_category(Category::TwoPair, i - trips.len());
        } else if i < trips.len() + two.len() + pair.len() {
            lemma_run_of_category(Category::Pair, i - trips.len() - two.len());
        } else {
            lemma_run_of_category(Category::HighCard, i - trips.len() - two.len() - pair.len());
        }
    }
}

/// The unsuited table has 6175 entries.
pub proof fn lemma_unsuited_table_size()
    ensures
        unsuited_table().dom().finite(),
        unsuited_table().len() == 6175,
{
    let straight = mask_keys(straight_masks());
    let upper = ranked(Map::empty(), upper_keys(), 11);
    let middle = ranked(upper, straight, 1600);
    lemma_unsuited_keys_differ();
    lemma_category_census();
    lemma_high_card_census();
    lemma_ranked_len(Map::empty(), upper_keys(), 11);
    assert forall|i: int| 0 <= i < straight.len() implies !upper.contains_key(
        #[trigger] straight[i],
    ) by {
        lemma_ranked_keys(Map::empty(), upper_keys(), 11, straight[i]);
        if upper_keys().contains(straight[i]) {
            let j = choose|j: int| 0 <= j < upper_keys().len() && upper_keys()[j] == straight[i];
            assert(is_straight_key(upper_keys()[j]));
        }
    }
    lemma_ranked_len(upper, straight, 1600);
    assert forall|i: int| 0 <= i < lower_keys().len() implies !middle.contains_key(
        #[trigger] lower_keys()[i],
    ) by {
        let key = lower_keys()[i];
        lemma_ranked_keys(Map::empty(), upper_keys(), 11, key);
        lemma_ranked_keys(upper, straight, 1600, key);
        if upper_keys().contains(key) {
            let j = choose|j: int| 0 <= j < upper_keys().len() && upper_keys()[j] == key;
            assert(lower_keys().contains(upper_keys()[j]));
        }
    }
    lemma_ranked_len(middle, lower_keys(), 1610);
}

/// In the unsuited table each hand of the six categories has as its
/// strength its place in the enumeration of its category, counted from
/// the strength of the strongest hand of the category.
pub proof fn lemma_category_band(cat: Category, at: int)
    requires
        0 <= at < category_keys(cat).len(),
    ensures
        unsuited_table().contains_key(category_keys(cat)[at]),
        unsuited_table()[category_keys(cat)[at]] == band_start(cat) + at,
{
    let key = category_keys(cat)[at];
    let straight = mask_keys(straight_masks());
    let upper = ranked(Map::empty(), upper_keys(), 11);
    let middle = ranked(upper, straight, 1600);
    lemma_unsuited_keys_differ();
    lemma_category_place(cat, at);
    lemma_run_of_category(cat, at);
    if cat == Category::Quads || cat == Category::FullHouse {
        lemma_ranked_at(Map::empty(), upper_keys(), 11, band_start(cat) - 11 + at);
        lemma_ranked_keys(upper, straight, 1600, key);
        lemma_ranked_value(upper, straight, 1600, key);
        lemma_ranked_keys(middle, lower_keys(), 1610, key);
        lemma_ranked_value(middle, lower_keys(), 1610, key);
    } else {
        lemma_ranked_at(middle, lower_keys(), 1610, band_start(cat) - 1610 + at);
    }
}

/// In the unsuited table each straight has its place among the
/// straights, counted from 1600, as its strength.
pub proof fn lemma_straight_band(at: int)
    requires
        0 <= at < 10,
    ensures
        unsuited_table().contains_key(mask_key(straight_masks()[at])),
        unsuited_table()[mask_key(straight_masks()[at])] == 1600 + at,
{
    let straight = mask_keys(straight_masks());
    let key = straight[at];
    let upper = ranked(Map::empty(), upper_keys(), 11);
    let middle = ranked(upper, straight, 1600);
    lemma_unsuited_keys_differ();
    lemma_category_census();
    lemma_high_card_census();
    lemma_ranked_at(upper, straight, 1600, at);
    assert(!lower_keys().contains(key)) by {
        if lower_keys().contains(key) {
            let i = choose|i: int| 0 <= i < lower_keys().len() && lower_keys()[i] == key;
            assert(is_straight_key(lower_keys()[i]));
        }
    }
    lemma_ranked_keys(middle, lower_keys(), 1610, key);
    lemma_ranked_value(middle, lower_keys(), 1610, key);
}

/// The strength behind the weakest hand of a category.
pub open spec fn band_end(cat: Category) -> nat {
    match cat {
        Category::Quads => 167,
        Category::FullHouse => 323,
        Category::Trips => 2468,
        Category::TwoPair => 3326,
        Category::Pair => 6186,
        Category::HighCard => 7463,
    }
}

/// Each hand of the six categories has a strength in the band of its
/// category, but for the straights among the high cards, whose band
/// starts at 1600. So four of a kind beat a full house, a full house beats
/// a straight, a straight beats three of a kind, and so on down to the
/// high cards.
pub proof fn lemma_hand_in_band(cat: Category, lead: Seq<u32>, kick: Seq<u32>)
    requires
        fits(cat, lead, kick),
    ensures
        unsuited_table().contains_key(shape_key(cat, lead, kick)),
        is_straight_key(shape_key(cat, lead, kick)) ==> cat == Category::HighCard && 1600
            <= unsuited_table()[shape_key(cat, lead, kick)] < 1610,
        !is_straight_key(shape_key(cat, lead, kick)) ==> band_start(cat)
            <= unsuited_table()[shape_key(cat, lead, kick)] < band_end(cat),
{
    let key = shape_key(cat, lead, kick);
    lemma_category_census();
    lemma_high_card_census();
    if is_straight_key(key) {
        lemma_straight_key_is_high_card(cat, lead, kick);
        let straight = mask_keys(straight_masks());
        let at = choose|at: int| 0 <= at < straight.len() && straight[at] == key;
        lemma_straight_band(at);
    } else {
        lemma_category_holds(cat, lead, kick);
        let keys = category_keys(cat);
        let at = choose|at: int| 0 <= at < keys.len() && keys[at] == key;
        lemma_category_band(cat, at);
    }
}

/// Each flush has a strength in its band: 1 to 10 for the straight
/// flushes, 323 to 1599 for the others. So a straight flush beats four of
/// a kind, and a full house beats a flush, which beats a straight.
pub proof fn lemma_flush_in_band(mask: u32)
    requires
        mask < 8192,
        count_ones(mask) == 5,
    ensures
        flush_table().contains_key(mask_key(mask)),
        is_straight_mask(mask) ==> 1 <= flush_table()[mask_key(mask)] <= 10,
        !is_straight_mask(mask) ==> 323 <= flush_table()[mask_key(mask)] <= 1599,
{
    lemma_flush_census();
    if is_straight_mask(mask) {
        let at = choose|at: int| 0 <= at < 10 && straight_masks()[at] == mask;
        lemma_flush_table_exact(at);
    } else {
        let plain = plain_flushes(five_rank_masks());
        lemma_five_rank_masks_hold(mask);
        lemma_plain_flushes_hold(five_rank_masks(), mask);
        let at = choose|at: int| 0 <= at < plain.len() && plain[at] == mask;
        lemma_flush_table_exact(at);
    }
}

} // verus!
