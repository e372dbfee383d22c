//! Unique factorisation, as far as hands need it: the product of the
//! primes of five ranks tells the ranks.
use vstd::arithmetic::div_mod::{lemma_mod_multiples_basic, lemma_mul_mod_noop_left};
use vstd::prelude::*;
use crate::card::rank_prime;
use crate::primes::lemma_prime_divides_cofactor;
use crate::shapes::{all_ranks, ranks_product};

verus! {

/// Whether no rank is above one before it.
pub open spec fn sorted_down(ranks: Seq<u32>) -> bool {
    forall|i: int, j: int| 0 <= i < j < ranks.len() ==> ranks[i] >= ranks[j]
}

/// The prime of each of the ranks divides their product.
pub proof fn lemma_rank_divides_product(ranks: Seq<u32>, at: int)
    requires
        0 <= at < ranks.len(),
        all_ranks(ranks),
    ensures
        ranks_product(ranks) % rank_prime(ranks[at] as int) == 0,
    decreases ranks.len(),
{
    let before = ranks_product(ranks.drop_last());
    let q = rank_prime(ranks.last() as int);
    let p = rank_prime(ranks[at] as int);
    assert(ranks[at] < 13);
    assert(ranks[ranks.len() - 1] < 13);
    if at == ranks.len() - 1 {
        lemma_mod_multiples_basic(before as int, q as int);
    } else {
        assert(ranks.drop_last()[at] == ranks[at]);
        lemma_rank_divides_product(ranks.drop_last(), at);
        lemma_mul_mod_noop_left(before as int, q as int, p as int);
        assert((0 * (q as int)) % (p as int) == 0);
    }
}

/// A rank whose prime divides the product of ranks is one of them.
pub proof fn lemma_divisor_is_among(ranks: Seq<u32>, rank: u32)
    requires
        all_ranks(ranks),
        rank < 13,
        ranks_product(ranks) % rank_prime(rank as int) == 0,
    ensures
        ranks.contains(rank),
    decreases ranks.len(),
{
    if ranks.len() == 0 {
        assert(1nat % rank_prime(rank as int) == 1);
    } else {
        let last = ranks.last();
        assert(ranks[ranks.len() - 1] < 13);
        if last == rank {
            assert(ranks[ranks.len() - 1] == rank);
        } else {
            lemma_prime_divides_cofactor(ranks_product(ranks.drop_last()), rank, last);
            lemma_divisor_is_among(ranks.drop_last(), rank);
            let i = choose|i: int| 0 <= i < ranks.drop_last().len() && ranks.drop_last()[i] == rank;
            assert(ranks[i] == rank);
        }
    }
}

/// Unique factorisation: two descending runs of as many ranks with the
/// same product are the same run.
pub proof fn lemma_sorted_product_injective(a: Seq<u32>, b: Seq<u32>)
    requires
        a.len() == b.len(),
        all_ranks(a),
        all_ranks(b),
        sorted_down(a),
        sorted_down(b),
        ranks_product(a) == ranks_product(b),
    ensures
        a == b,
    decreases a.len(),
{
    if a.len() == 0 {
        assert(a =~= b);
    } else {
        let n = a.len() - 1;
        lemma_rank_divides_product(a, n);
        lemma_rank_divides_product(b, n);
        assert(a[n] < 13 && b[n] < 13);
        lemma_divisor_is_among(b, a[n]);
        lemma_divisor_is_among(a, b[n]);
        let i = choose|i: int| 0 <= i < b.len() && b[i] == a[n];
        let j = choose|j: int| 0 <= j < a.len() && a[j] == b[n];
        assert(b[i] >= b[n]);
        assert(a[j] >= a[n]);
        assert(a[n] == b[n]);
        let pa = ranks_product(a.drop_last());
        let pb = ranks_product(b.drop_last());
        let q = rank_prime(a[n] as int);
        assert(pa == pb) by (nonlinear_arith)
            requires
                pa * q == pb * q,
                q >= 1,
        ;
        assert(all_ranks(a.drop_last())) by {
            assert forall|i: int| 0 <= i < a.drop_last().len() implies #[trigger] a.drop_last()[i]
                < 13 by {
                assert(a.drop_last()[i] == a[i]);
            }
        }
        assert(all_ranks(b.drop_last())) by {
            assert forall|i: int| 0 <= i < b.drop_last().len() implies #[trigger] b.drop_last()[i]
                < 13 by {
                assert(b.drop_last()[i] == b[i]);
            }
        }
        assert(sorted_down(a.drop_last())) by {
            assert forall|i: int, j: int| 0 <= i < j < a.drop_last().len() implies a.drop_last()[i]
                >= a.drop_last()[j] by {
                assert(a[i] >= a[j]);
            }
        }
        assert(sorted_down(b.drop_last())) by {
            assert forall|i: int, j: int| 0 <= i < j < b.drop_last().len() implies b.drop_last()[i]
                >= b.drop_last()[j] by {
                assert(b[i] >= b[j]);
            }
        }
        lemma_sorted_product_injective(a.drop_last(), b.drop_last());
        assert(a =~= a.drop_last().push(a[n]));
        assert(b =~= b.drop_last().push(b[n]));
    }
}

} // verus!
