//! Within a category the stronger hand has the smaller strength: the
//! hands are enumerated from the high ranks down.
use vstd::prelude::*;
use crate::bits::count_ones;
use crate::census::{
    lemma_category_band, lemma_flush_census, lemma_flush_table_exact, lemma_plain_flushes_descend,
};
use crate::combinations::{combinations_of, lemma_combinations_drawn, with_first};
use crate::coverage::{
    descending, fits, lemma_category_holds, lemma_fits_one_one, lemma_ranks_down_holds,
};
use crate::entries::{
    kicks_of, leads_of, leads_well, lemma_keys_tell_hands, lemma_kicks_fit, lemma_lead_key_origin,
    lemma_leads_key_origin, lemma_leads_lead_well, lemma_straight_key_is_high_card,
};
use crate::lookup::{
    category_keys, five_rank_masks, flush_table, is_straight_key, is_straight_mask, lead_keys,
    leads_keys, mask_key, plain_flushes, unsuited_table,
};
use crate::shapes::{candidates, kick_size, lead_size, ranks_down, shape_key, Category};
use crate::strengths::{lemma_five_rank_masks_hold, lemma_plain_flushes_hold};

verus! {

/// Whether the ranks `a` come before the ranks `b` in the order from the
/// high ranks down: at the first place where they differ, `a` has the
/// higher rank.
pub open spec fn outranks(a: Seq<u32>, b: Seq<u32>) -> bool {
    exists|t: int| outranks_at(a, b, t)
}

/// Whether the ranks `a` and `b` are the same before the place `t`, where
/// `a` has the higher rank.
pub open spec fn outranks_at(a: Seq<u32>, b: Seq<u32>, t: int) -> bool {
    0 <= t < a.len() && t < b.len() && a[t] > b[t] && forall|u: int| 0 <= u < t ==> a[u] == b[u]
}

/// No ranks come both before and behind others, and none before
/// themselves.
pub proof fn lemma_outranks_one_way(a: Seq<u32>, b: Seq<u32>)
    requires
        outranks(a, b),
    ensures
        !outranks(b, a),
        a != b,
{
    let t = choose|t: int| outranks_at(a, b, t);
    assert(outranks_at(a, b, t));
    if outranks(b, a) {
        let s = choose|s: int| outranks_at(b, a, s);
        assert(outranks_at(b, a, s));
        if t < s {
            assert(b[t] == a[t]);
        } else if s < t {
            assert(a[s] == b[s]);
        }
    }
}

/// The selections from descending items come in the order from the high
/// ranks down.
pub proof fn lemma_selections_in_order(items: Seq<u32>, k: nat, i: int, j: int)
    requires
        descending(items),
        0 <= i < j < combinations_of(items, k).len(),
    ensures
        outranks(combinations_of(items, k)[i], combinations_of(items, k)[j]),
    decreases items.len(),
{
    let all = combinations_of(items, k);
    if k == 0 {
    } else if items.len() == 0 {
    } else {
        let rest = items.drop_first();
        let tails = combinations_of(rest, (k - 1) as nat);
        let with = with_first(items[0], tails);
        let without = combinations_of(rest, k);
        assert(descending(rest)) by {
            assert forall|x: int, y: int| 0 <= x < y < rest.len() implies rest[x] > rest[y] by {
                assert(items[x + 1] > items[y + 1]);
            }
        }
        lemma_combinations_drawn(rest, k);
        lemma_combinations_drawn(rest, (k - 1) as nat);
        if j < with.len() {
            lemma_selections_in_order(rest, (k - 1) as nat, i, j);
            let t = choose|t: int| outranks_at(tails[i], tails[j], t);
            assert(outranks_at(tails[i], tails[j], t));
            assert(all[i] == seq![items[0]] + tails[i]);
            assert(all[j] == seq![items[0]] + tails[j]);
            assert(outranks_at(all[i], all[j], t + 1)) by {
                assert forall|u: int| 0 <= u < t + 1 implies all[i][u] == all[j][u] by {
                    if u > 0 {
                        assert(tails[i][u - 1] == tails[j][u - 1]);
                    }
                }
            }
        } else if i >= with.len() {
            lemma_selections_in_order(rest, k, i - with.len(), j - with.len());
            assert(all[i] == without[i - with.len()]);
            assert(all[j] == without[j - with.len()]);
        } else {
            let row = without[j - with.len()];
            assert(all[j] == row);
            assert(all[i] == seq![items[0]] + tails[i]);
            assert(rest.contains(row[0]));
            let at = choose|at: int| 0 <= at < rest.len() && rest[at] == row[0];
            assert(items[0] > items[at + 1]);
            assert(outranks_at(all[i], all[j], 0));
        }
    }
}

/// Under leading ranks, a key that comes earlier comes from an earlier
/// choice of kickers.
pub proof fn lemma_lead_keys_in_order(
    cat: Category,
    lead: Seq<u32>,
    kicks: Seq<Seq<u32>>,
    at1: int,
    at2: int,
) -> (from: (int, int))
    requires
        0 <= at1 < at2 < lead_keys(cat, lead, kicks).len(),
    ensures
        0 <= from.0 < from.1 < kicks.len(),
        lead_keys(cat, lead, kicks)[at1] == shape_key(cat, lead, kicks[from.0]),
        lead_keys(cat, lead, kicks)[at2] == shape_key(cat, lead, kicks[from.1]),
    decreases kicks.len(),
{
    let short = kicks.drop_last();
    let before = lead_keys(cat, lead, short);
    if at2 < before.len() {
        let from = lemma_lead_keys_in_order(cat, lead, short, at1, at2);
        assert(short[from.0] == kicks[from.0]);
        assert(short[from.1] == kicks[from.1]);
        from
    } else {
        let ki = lemma_lead_key_origin(cat, lead, short, at1);
        assert(short[ki] == kicks[ki]);
        (ki, kicks.len() - 1)
    }
}

/// Among the keys of a run of leading groups, a key that comes earlier
/// comes from earlier leading ranks, or from the same leading ranks and
/// an earlier choice of kickers.
pub proof fn lemma_leads_keys_in_order(cat: Category, leads: Seq<Seq<u32>>, at1: int, at2: int) -> (from: (
    (int, int),
    (int, int),
))
    requires
        0 <= at1 < at2 < leads_keys(cat, leads).len(),
    ensures
        0 <= from.0.0 <= from.1.0 < leads.len(),
        0 <= from.0.1 < kicks_of(cat, leads[from.0.0]).len(),
        0 <= from.1.1 < kicks_of(cat, leads[from.1.0]).len(),
        from.0.0 == from.1.0 ==> from.0.1 < from.1.1,
        leads_keys(cat, leads)[at1] == shape_key(
            cat,
            leads[from.0.0],
            kicks_of(cat, leads[from.0.0])[from.0.1],
        ),
        leads_keys(cat, leads)[at2] == shape_key(
            cat,
            leads[from.1.0],
            kicks_of(cat, leads[from.1.0])[from.1.1],
        ),
    decreases leads.len(),
{
    let short = leads.drop_last();
    let last = leads.last();
    let before = leads_keys(cat, short);
    if at2 < before.len() {
        let from = lemma_leads_keys_in_order(cat, short, at1, at2);
        assert(short[from.0.0] == leads[from.0.0]);
        assert(short[from.1.0] == leads[from.1.0]);
        from
    } else if at1 < before.len() {
        let first = lemma_leads_key_origin(cat, short, at1);
        assert(short[first.0] == leads[first.0]);
        let ki = lemma_lead_key_origin(cat, last, kicks_of(cat, last), at2 - before.len());
        (first, (leads.len() - 1, ki))
    } else {
        let pair = lemma_lead_keys_in_order(
            cat,
            last,
            kicks_of(cat, last),
            at1 - before.len(),
            at2 - before.len(),
        );
        ((leads.len() - 1, pair.0), (leads.len() - 1, pair.1))
    }
}

/// Whether a hand comes before another of its category: its leading
/// ranks come first, or they are the same and its kickers come first.
pub open spec fn comes_first(lead1: Seq<u32>, kick1: Seq<u32>, lead2: Seq<u32>, kick2: Seq<u32>) -> bool {
    outranks(lead1, lead2) || (lead1 == lead2 && outranks(kick1, kick2))
}

/// Of two hands of a category, neither of them a straight, the one that
/// comes first from the high ranks down has the smaller strength.
pub proof fn lemma_stronger_hand_wins(
    cat: Category,
    lead1: Seq<u32>,
    kick1: Seq<u32>,
    lead2: Seq<u32>,
    kick2: Seq<u32>,
)
    requires
        fits(cat, lead1, kick1),
        fits(cat, lead2, kick2),
        !is_straight_key(shape_key(cat, lead1, kick1)),
        !is_straight_key(shape_key(cat, lead2, kick2)),
        comes_first(lead1, kick1, lead2, kick2),
    ensures
        unsuited_table().contains_key(shape_key(cat, lead1, kick1)),
        unsuited_table().contains_key(shape_key(cat, lead2, kick2)),
        unsuited_table()[shape_key(cat, lead1, kick1)] < unsuited_table()[shape_key(
            cat,
            lead2,
            kick2,
        )],
{
    let keys = category_keys(cat);
    let key1 = shape_key(cat, lead1, kick1);
    let key2 = shape_key(cat, lead2, kick2);
    lemma_category_holds(cat, lead1, kick1);
    lemma_category_holds(cat, lead2, kick2);
    let at1 = choose|at: int| 0 <= at < keys.len() && keys[at] == key1;
    let at2 = choose|at: int| 0 <= at < keys.len() && keys[at] == key2;
    lemma_category_band(cat, at1);
    lemma_category_band(cat, at2);
    if outranks(lead1, lead2) {
        lemma_outranks_one_way(lead1, lead2);
    } else {
        lemma_outranks_one_way(kick1, kick2);
    }
    if at1 == at2 {
        lemma_keys_tell_hands(cat, lead1, kick1, cat, lead2, kick2);
    } else if at2 < at1 {
        let leads = leads_of(cat);
        let from = lemma_leads_keys_in_order(cat, leads, at2, at1);
        let (li2, ki2) = from.0;
        let (li1, ki1) = from.1;
        lemma_leads_lead_well(cat);
        assert(leads_well(cat, leads[li1]));
        assert(leads_well(cat, leads[li2]));
        lemma_kicks_fit(cat, leads[li1]);
        lemma_kicks_fit(cat, leads[li2]);
        lemma_keys_tell_hands(cat, lead1, kick1, cat, leads[li1], kicks_of(cat, leads[li1])[ki1]);
        lemma_keys_tell_hands(cat, lead2, kick2, cat, leads[li2], kicks_of(cat, leads[li2])[ki2]);
        if li2 < li1 {
            lemma_ranks_down_holds(13, Seq::empty());
            lemma_selections_in_order(ranks_down(13, Seq::empty()), lead_size(cat), li2, li1);
            lemma_outranks_one_way(lead2, lead1);
        } else {
            let pool = candidates(cat, lead1);
            if cat == Category::HighCard {
                assert(lead1[0] < 13);
                lemma_ranks_down_holds(lead1[0] as nat, Seq::empty());
            } else {
                lemma_ranks_down_holds(13, lead1);
            }
            lemma_selections_in_order(pool, kick_size(cat), ki2, ki1);
            lemma_outranks_one_way(kick2, kick1);
        }
    }
}

/// Of two flushes that are no straight flushes, the one with the larger
/// rank mask has the smaller strength.
pub proof fn lemma_stronger_flush_wins(mask1: u32, mask2: u32)
    requires
        mask2 < mask1 < 8192,
        count_ones(mask1) == 5,
        count_ones(mask2) == 5,
        !is_straight_mask(mask1),
        !is_straight_mask(mask2),
    ensures
        flush_table().contains_key(mask_key(mask1)),
        flush_table().contains_key(mask_key(mask2)),
        flush_table()[mask_key(mask1)] < flush_table()[mask_key(mask2)],
{
    let plain = plain_flushes(five_rank_masks());
    lemma_flush_census();
    lemma_five_rank_masks_hold(mask1);
    lemma_five_rank_masks_hold(mask2);
    lemma_plain_flushes_hold(five_rank_masks(), mask1);
    lemma_plain_flushes_hold(five_rank_masks(), mask2);
    let at1 = choose|at: int| 0 <= at < plain.len() && plain[at] == mask1;
    let at2 = choose|at: int| 0 <= at < plain.len() && plain[at] == mask2;
    lemma_flush_table_exact(at1);
    lemma_flush_table_exact(at2);
    crate::bits::lemma_patterns_sound(0, 8192, 5);
    lemma_plain_flushes_descend(five_rank_masks());
    if at2 < at1 {
        assert(plain[at2] > plain[at1]);
    }
}

/// Four of a higher rank beat four of a lower rank, whatever the fifth
/// card.
pub proof fn lemma_higher_quads_win(rank1: u32, kick1: u32, rank2: u32, kick2: u32)
    requires
        rank2 < rank1 < 13,
        kick1 < 13,
        kick2 < 13,
        kick1 != rank1,
        kick2 != rank2,
    ensures
        unsuited_table().contains_key(shape_key(Category::Quads, seq![rank1], seq![kick1])),
        unsuited_table().contains_key(shape_key(Category::Quads, seq![rank2], seq![kick2])),
        unsuited_table()[shape_key(Category::Quads, seq![rank1], seq![kick1])]
            < unsuited_table()[shape_key(Category::Quads, seq![rank2], seq![kick2])],
{
    let cat = Category::Quads;
    lemma_fits_one_one(cat, rank1, kick1);
    lemma_fits_one_one(cat, rank2, kick2);
    if is_straight_key(shape_key(cat, seq![rank1], seq![kick1])) {
        lemma_straight_key_is_high_card(cat, seq![rank1], seq![kick1]);
    }
    if is_straight_key(shape_key(cat, seq![rank2], seq![kick2])) {
        lemma_straight_key_is_high_card(cat, seq![rank2], seq![kick2]);
    }
    assert(outranks_at(seq![rank1], seq![rank2], 0));
    lemma_stronger_hand_wins(cat, seq![rank1], seq![kick1], seq![rank2], seq![kick2]);
}

} // verus!
