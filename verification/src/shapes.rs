//! The hands that are ranked by the ranks alone, category by category:
//! which ranks a hand of a category repeats, and in which order the hands
//! of a category are enumerated.
use vstd::prelude::*;
use crate::card::{prime_of, rank_prime};

verus! {

/// The categories of hands that the unsuited table enumerates by a leading
/// group of ranks and a group of kickers.
#[derive(Clone, Copy, PartialEq, Eq, Debug)]
pub enum Category {
    /// Four of the leading rank, and one kicker.
    Quads,
    /// Three of the leading rank, and two of the other.
    FullHouse,
    /// Three of the leading rank, and two kickers.
    Trips,
    /// Two of each of the two leading ranks, and one kicker.
    TwoPair,
    /// Two of the leading rank, and three kickers.
    Pair,
    /// Five ranks, the highest leading.
    HighCard,
}

/// How many ranks lead a hand of the category.
pub open spec fn lead_size(cat: Category) -> nat {
    match cat {
        Category::TwoPair => 2,
        _ => 1,
    }
}

/// How many ranks follow the leading ones.
pub open spec fn kick_size(cat: Category) -> nat {
    match cat {
        Category::Quads => 1,
        Category::FullHouse => 1,
        Category::Trips => 2,
        Category::TwoPair => 1,
        Category::Pair => 3,
        Category::HighCard => 4,
    }
}

/// The five ranks of the hand of a category with the given leading ranks
/// and kickers.
pub open spec fn shape(cat: Category, lead: Seq<u32>, kick: Seq<u32>) -> Seq<u32> {
    match cat {
        Category::Quads => seq![lead[0], lead[0], lead[0], lead[0], kick[0]],
        Category::FullHouse => seq![lead[0], lead[0], lead[0], kick[0], kick[0]],
        Category::Trips => seq![lead[0], lead[0], lead[0], kick[0], kick[1]],
        Category::TwoPair => seq![lead[0], lead[0], lead[1], lead[1], kick[0]],
        Category::Pair => seq![lead[0], lead[0], kick[0], kick[1], kick[2]],
        Category::HighCard => seq![lead[0], kick[0], kick[1], kick[2], kick[3]],
    }
}

/// The product of the primes of a sequence of ranks.
pub open spec fn ranks_product(ranks: Seq<u32>) -> nat
    decreases ranks.len(),
{
    if ranks.len() == 0 {
        1
    } else {
        ranks_product(ranks.drop_last()) * rank_prime(ranks.last() as int)
    }
}

/// The fingerprint of the hand of a category with the given leading ranks
/// and kickers.
pub open spec fn shape_key(cat: Category, lead: Seq<u32>, kick: Seq<u32>) -> u32 {
    ranks_product(shape(cat, lead, kick)) as u32
}

/// The ranks below `below`, from the highest down, without those in
/// `skip`.
pub open spec fn ranks_down(below: nat, skip: Seq<u32>) -> Seq<u32>
    decreases below,
{
    if below == 0 {
        Seq::empty()
    } else {
        let rest = ranks_down((below - 1) as nat, skip);
        if skip.contains((below - 1) as u32) {
            rest
        } else {
            seq![(below - 1) as u32] + rest
        }
    }
}

/// The ranks that the kickers are chosen from: for a high card the ranks
/// below the leading one, else all ranks but the leading ones.
pub open spec fn candidates(cat: Category, lead: Seq<u32>) -> Seq<u32> {
    if cat == Category::HighCard {
        ranks_down(lead[0] as nat, Seq::empty())
    } else {
        ranks_down(13, lead)
    }
}

/// Whether all of the ranks are below 13.
pub open spec fn all_ranks(ranks: Seq<u32>) -> bool {
    forall|i: int| 0 <= i < ranks.len() ==> #[trigger] ranks[i] < 13
}

/// The ranks listed are below the bound, and there are no more of them
/// than the bound allows.
pub proof fn lemma_ranks_down_bound(below: nat, skip: Seq<u32>)
    requires
        below <= 13,
    ensures
        ranks_down(below, skip).len() <= below,
        forall|i: int|
            0 <= i < ranks_down(below, skip).len() ==> #[trigger] ranks_down(below, skip)[i]
                < below,
    decreases below,
{
    if below > 0 {
        lemma_ranks_down_bound((below - 1) as nat, skip);
    }
}

/// The product of five ranks, written out.
pub proof fn lemma_five_product(a: u32, b: u32, c: u32, d: u32, e: u32)
    ensures
        ranks_product(seq![a, b, c, d, e]) == rank_prime(a as int) * rank_prime(b as int)
            * rank_prime(c as int) * rank_prime(d as int) * rank_prime(e as int),
{
    let s5 = seq![a, b, c, d, e];
    let s4 = seq![a, b, c, d];
    let s3 = seq![a, b, c];
    let s2 = seq![a, b];
    let s1 = seq![a];
    assert(s5.drop_last() =~= s4);
    assert(s4.drop_last() =~= s3);
    assert(s3.drop_last() =~= s2);
    assert(s2.drop_last() =~= s1);
    assert(s1.drop_last() =~= Seq::<u32>::empty());
    assert(ranks_product(s1) == rank_prime(a as int)) by {
        assert(ranks_product(Seq::<u32>::empty()) == 1);
        assert(ranks_product(s1) == ranks_product(s1.drop_last()) * rank_prime(a as int));
    }
    assert(ranks_product(s2) == ranks_product(s1) * rank_prime(b as int));
    assert(ranks_product(s3) == ranks_product(s2) * rank_prime(c as int));
    assert(ranks_product(s4) == ranks_product(s3) * rank_prime(d as int));
    assert(ranks_product(s5) == ranks_product(s4) * rank_prime(e as int));
}

/// The fingerprint of five ranks: the product of their primes.
pub fn five_rank_key(a: u32, b: u32, c: u32, d: u32, e: u32) -> (key: u32)
    requires
        a < 13,
        b < 13,
        c < 13,
        d < 13,
        e < 13,
    ensures
        key == ranks_product(seq![a, b, c, d, e]),
        key <= 115856201,
{
    let pa = prime_of(a);
    let pb = prime_of(b);
    let pc = prime_of(c);
    let pd = prime_of(d);
    let pe = prime_of(e);
    proof {
        lemma_five_product(a, b, c, d, e);
        assert(pa * pb <= 1681) by (nonlinear_arith)
            requires
                pa <= 41,
                pb <= 41,
        ;
        assert(pa * pb * pc <= 68921) by (nonlinear_arith)
            requires
                pa * pb <= 1681,
                pc <= 41,
        ;
        assert(pa * pb * pc * pd <= 2825761) by (nonlinear_arith)
            requires
                pa * pb * pc <= 68921,
                pd <= 41,
        ;
        assert(pa * pb * pc * pd * pe <= 115856201) by (nonlinear_arith)
            requires
                pa * pb * pc * pd <= 2825761,
                pe <= 41,
        ;
    }
    pa * pb * pc * pd * pe
}

/// The fingerprint of the hand of a category with the given leading ranks
/// and kickers.
pub fn category_key(cat: Category, lead: &Vec<u32>, kick: &Vec<u32>) -> (key: u32)
    requires
        lead@.len() == lead_size(cat),
        kick@.len() == kick_size(cat),
        all_ranks(lead@),
        all_ranks(kick@),
    ensures
        key == shape_key(cat, lead@, kick@),
        key == ranks_product(shape(cat, lead@, kick@)),
{
    match cat {
        Category::Quads => five_rank_key(lead[0], lead[0], lead[0], lead[0], kick[0]),
        Category::FullHouse => five_rank_key(lead[0], lead[0], lead[0], kick[0], kick[0]),
        Category::Trips => five_rank_key(lead[0], lead[0], lead[0], kick[0], kick[1]),
        Category::TwoPair => five_rank_key(lead[0], lead[0], lead[1], lead[1], kick[0]),
        Category::Pair => five_rank_key(lead[0], lead[0], kick[0], kick[1], kick[2]),
        Category::HighCard => five_rank_key(lead[0], kick[0], kick[1], kick[2], kick[3]),
    }
}

/// Whether `ranks` holds `rank`.
pub fn holds(ranks: &Vec<u32>, rank: u32) -> (found: bool)
    ensures
        found == ranks@.contains(rank),
{
    let mut i: usize = 0;
    while i < ranks.len()
        invariant
            i <= ranks@.len(),
            forall|j: int| 0 <= j < i ==> ranks@[j] != rank,
        decreases ranks@.len() - i,
    {
        if ranks[i] == rank {
            return true;
        }
        i += 1;
    }
    false
}

/// The ranks below `below`, from the highest down, without those in
/// `skip`.
pub fn descending_ranks(below: u32, skip: &Vec<u32>) -> (ranks: Vec<u32>)
    requires
        below <= 13,
    ensures
        ranks@ == ranks_down(below as nat, skip@),
        all_ranks(ranks@),
{
    let mut ranks: Vec<u32> = Vec::new();
    let mut r: u32 = below;
    while r > 0
        invariant
            r <= below <= 13,
            ranks@ + ranks_down(r as nat, skip@) == ranks_down(below as nat, skip@),
        decreases r,
    {
        r -= 1;
        if !holds(skip, r) {
            ranks.push(r);
            proof {
                assert(ranks@ + ranks_down(r as nat, skip@) =~= ranks@.drop_last() + (seq![r]
                    + ranks_down(r as nat, skip@)));
            }
        }
    }
    proof {
        assert(ranks@ + ranks_down(0, skip@) =~= ranks@);
        lemma_ranks_down_bound(below as nat, skip@);
    }
    ranks
}

} // verus!
