//! Facts about products of the rank primes.
use vstd::arithmetic::div_mod::{lemma_mod_multiples_basic, lemma_mul_mod_noop_left};
use vstd::prelude::*;
use crate::bits::count_ones;
use crate::card::{has_rank, mask_product, rank_factor, rank_prime, rank_set_product};

verus! {

/// How many of the ranks below `n` the mask `bits` holds.
pub open spec fn ranks_held(bits: u32, n: nat) -> nat
    decreases n,
{
    if n == 0 {
        0
    } else {
        ranks_held(bits, (n - 1) as nat) + if has_rank(bits, (n - 1) as u32) {
            1nat
        } else {
            0nat
        }
    }
}

/// The largest product of `n` rank primes: the `n`-th power of 41.
pub open spec fn ace_power(n: nat) -> nat
    decreases n,
{
    if n == 0 {
        1
    } else {
        41 * ace_power((n - 1) as nat)
    }
}

/// The two ways of reading bit `i` of a word agree.
pub proof fn lemma_bit_forms(bits: u32, i: u32)
    by (bit_vector)
    requires
        i < 32,
    ensures
        (bits & (1u32 << i) != 0) <==> ((bits >> i) & 1 == 1),
        (bits >> i) & 1 <= 1,
{
}

/// A mask holds no more ranks than it has one bits.
pub proof fn lemma_ranks_held_bound(bits: u32)
    ensures
        ranks_held(bits, 13) <= count_ones(bits),
{
    reveal_with_fuel(ranks_held, 14);
    lemma_bit_forms(bits, 0);
    lemma_bit_forms(bits, 1);
    lemma_bit_forms(bits, 2);
    lemma_bit_forms(bits, 3);
    lemma_bit_forms(bits, 4);
    lemma_bit_forms(bits, 5);
    lemma_bit_forms(bits, 6);
    lemma_bit_forms(bits, 7);
    lemma_bit_forms(bits, 8);
    lemma_bit_forms(bits, 9);
    lemma_bit_forms(bits, 10);
    lemma_bit_forms(bits, 11);
    lemma_bit_forms(bits, 12);
    lemma_bit_forms(bits, 13);
    lemma_bit_forms(bits, 14);
    lemma_bit_forms(bits, 15);
    lemma_bit_forms(bits, 16);
    lemma_bit_forms(bits, 17);
    lemma_bit_forms(bits, 18);
    lemma_bit_forms(bits, 19);
    lemma_bit_forms(bits, 20);
    lemma_bit_forms(bits, 21);
    lemma_bit_forms(bits, 22);
    lemma_bit_forms(bits, 23);
    lemma_bit_forms(bits, 24);
    lemma_bit_forms(bits, 25);
    lemma_bit_forms(bits, 26);
    lemma_bit_forms(bits, 27);
    lemma_bit_forms(bits, 28);
    lemma_bit_forms(bits, 29);
    lemma_bit_forms(bits, 30);
    lemma_bit_forms(bits, 31);
}

/// The power of 41 grows with the exponent.
pub proof fn lemma_ace_power_grows(a: nat, b: nat)
    requires
        a <= b,
    ensures
        1 <= ace_power(a) <= ace_power(b),
    decreases b,
{
    if b == 0 {
    } else if a == b {
        lemma_ace_power_grows((a - 1) as nat, (b - 1) as nat);
    } else {
        lemma_ace_power_grows(a, (b - 1) as nat);
    }
}

/// The product of a mask is at most 41 to the number of ranks it holds.
pub proof fn lemma_mask_product_by_count(bits: u32, n: nat)
    requires
        n <= 13,
    ensures
        mask_product(bits, n) <= ace_power(ranks_held(bits, n)),
    decreases n,
{
    if n > 0 {
        lemma_mask_product_by_count(bits, (n - 1) as nat);
        let p = mask_product(bits, (n - 1) as nat);
        let q = ace_power(ranks_held(bits, (n - 1) as nat));
        let f = rank_factor(bits, (n - 1) as u32);
        if has_rank(bits, (n - 1) as u32) {
            assert(p * f <= 41 * q) by (nonlinear_arith)
                requires
                    p <= q,
                    f <= 41,
            ;
        } else {
            assert(p * 1 == p);
        }
    }
}

/// A mask with at most five one bits has a product that fits in 32 bits.
pub proof fn lemma_five_ranks_fit(bits: u32)
    requires
        count_ones(bits) <= 5,
    ensures
        rank_set_product(bits) <= 115856201,
{
    lemma_ranks_held_bound(bits);
    lemma_mask_product_by_count(bits, 13);
    lemma_ace_power_grows(ranks_held(bits, 13), 5);
    reveal_with_fuel(ace_power, 6);
}

/// Whether a number is one of the thirteen rank primes.
pub open spec fn is_rank_prime(p: u8) -> bool {
    ||| p == 2
    ||| p == 3
    ||| p == 5
    ||| p == 7
    ||| p == 11
    ||| p == 13
    ||| p == 17
    ||| p == 19
    ||| p == 23
    ||| p == 29
    ||| p == 31
    ||| p == 37
    ||| p == 41
}

/// No residue but zero of a rank prime gives a multiple of it when
/// multiplied by another rank prime.
pub proof fn lemma_residue_times_prime(p: u8, q: u8, r: u8)
    by (bit_vector)
    requires
        is_rank_prime(p),
        is_rank_prime(q),
        p != q,
        r < p,
        (r * q) % (p as int) == 0,
    ensures
        r == 0,
{
}

/// A rank prime that divides the product of a number and another rank
/// prime divides the number.
pub proof fn lemma_prime_divides_cofactor(a: nat, i: u32, j: u32)
    requires
        i < 13,
        j < 13,
        i != j,
        (a * rank_prime(j as int)) % rank_prime(i as int) == 0,
    ensures
        a % rank_prime(i as int) == 0,
{
    let p = rank_prime(i as int) as int;
    let q = rank_prime(j as int) as int;
    let r = (a as int) % p;
    lemma_mul_mod_noop_left(a as int, q, p);
    assert((r * q) % p == 0);
    assert(0 <= r < p);
    lemma_residue_times_prime(p as u8, q as u8, r as u8);
}

/// A rank prime divides the product of a mask over the ranks below `n`
/// exactly where the mask holds its rank and the rank is below `n`.
pub proof fn lemma_mask_product_divisors(bits: u32, n: nat, i: u32)
    requires
        n <= 13,
        i < 13,
    ensures
        mask_product(bits, n) % rank_prime(i as int) == 0 <==> i < n && has_rank(bits, i),
    decreases n,
{
    let p = rank_prime(i as int) as int;
    if n == 0 {
        assert(1int % p == 1);
    } else {
        let j = (n - 1) as u32;
        let before = mask_product(bits, (n - 1) as nat);
        lemma_mask_product_divisors(bits, (n - 1) as nat, i);
        if has_rank(bits, j) {
            let q = rank_prime(j as int);
            assert(mask_product(bits, n) == before * q);
            if i == j {
                lemma_mod_multiples_basic(before as int, p);
            } else {
                if before % (p as nat) == 0 {
                    lemma_mul_mod_noop_left(before as int, q as int, p);
                    assert((0 * (q as int)) % p == 0);
                }
                if (before * q) % (p as nat) == 0 {
                    lemma_prime_divides_cofactor(before, i, j);
                }
            }
        } else {
            assert(mask_product(bits, n) == before * 1);
        }
    }
}

/// Two words that hold the same ranks agree in their low thirteen bits.
pub proof fn lemma_same_ranks_same_mask(a: u32, b: u32)
    requires
        forall|i: u32| i < 13 ==> has_rank(a, i) == has_rank(b, i),
    ensures
        a & 0x1fff == b & 0x1fff,
{
    assert(has_rank(a, 0) == has_rank(b, 0));
    assert(has_rank(a, 1) == has_rank(b, 1));
    assert(has_rank(a, 2) == has_rank(b, 2));
    assert(has_rank(a, 3) == has_rank(b, 3));
    assert(has_rank(a, 4) == has_rank(b, 4));
    assert(has_rank(a, 5) == has_rank(b, 5));
    assert(has_rank(a, 6) == has_rank(b, 6));
    assert(has_rank(a, 7) == has_rank(b, 7));
    assert(has_rank(a, 8) == has_rank(b, 8));
    assert(has_rank(a, 9) == has_rank(b, 9));
    assert(has_rank(a, 10) == has_rank(b, 10));
    assert(has_rank(a, 11) == has_rank(b, 11));
    assert(has_rank(a, 12) == has_rank(b, 12));
    assert(a & 0x1fff == b & 0x1fff) by (bit_vector)
        requires
            (a & (1u32 << 0u32) != 0) == (b & (1u32 << 0u32) != 0),
            (a & (1u32 << 1u32) != 0) == (b & (1u32 << 1u32) != 0),
            (a & (1u32 << 2u32) != 0) == (b & (1u32 << 2u32) != 0),
            (a & (1u32 << 3u32) != 0) == (b & (1u32 << 3u32) != 0),
            (a & (1u32 << 4u32) != 0) == (b & (1u32 << 4u32) != 0),
            (a & (1u32 << 5u32) != 0) == (b & (1u32 << 5u32) != 0),
            (a & (1u32 << 6u32) != 0) == (b & (1u32 << 6u32) != 0),
            (a & (1u32 << 7u32) != 0) == (b & (1u32 << 7u32) != 0),
            (a & (1u32 << 8u32) != 0) == (b & (1u32 << 8u32) != 0),
            (a & (1u32 << 9u32) != 0) == (b & (1u32 << 9u32) != 0),
            (a & (1u32 << 10u32) != 0) == (b & (1u32 << 10u32) != 0),
            (a & (1u32 << 11u32) != 0) == (b & (1u32 << 11u32) != 0),
            (a & (1u32 << 12u32) != 0) == (b & (1u32 << 12u32) != 0),
    ;
}

/// The fingerprint of a set of ranks tells the set: two words with the
/// same product hold the same ranks.
pub proof fn lemma_rank_set_product_injective(a: u32, b: u32)
    requires
        rank_set_product(a) == rank_set_product(b),
    ensures
        a & 0x1fff == b & 0x1fff,
{
    assert forall|i: u32| i < 13 implies has_rank(a, i) == has_rank(b, i) by {
        lemma_mask_product_divisors(a, 13, i);
        lemma_mask_product_divisors(b, 13, i);
    }
    lemma_same_ranks_same_mask(a, b);
}

/// Bits above the thirteenth do not count in the fingerprint.
pub proof fn lemma_mask_product_low_bits(bits: u32, n: nat)
    requires
        n <= 13,
    ensures
        mask_product(bits & 0x1fff, n) == mask_product(bits, n),
    decreases n,
{
    if n > 0 {
        lemma_mask_product_low_bits(bits, (n - 1) as nat);
        let i = (n - 1) as u32;
        assert(((bits & 0x1fff) & (1u32 << i) != 0) == (bits & (1u32 << i) != 0)) by (bit_vector)
            requires
                i < 13,
        ;
    }
}

} // verus!
