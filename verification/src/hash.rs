//! The integer mixer that level sizes and the random stream are drawn from.

use vstd::arithmetic::div_mod::{lemma_mod_multiples_vanish, lemma_mul_mod_noop_left};
use vstd::arithmetic::mul::lemma_mul_is_associative;
use vstd::prelude::*;

verus! {

/// Odd multiplier of the mixer.
pub const MULTIPLIER: u32 = 0x45d9f3b;

/// The inverse of [`MULTIPLIER`] modulo two to the power 32.
pub const INVERSE_MULTIPLIER: u32 = 0x119de1f3;

/// The upper half of `x` mixed into its lower half.
pub open spec fn fold_halves(x: u32) -> u32 {
    x ^ (x >> 16u32)
}

/// The product with `k` modulo two to the power 32.
pub open spec fn scale(x: u32, k: u32) -> u32 {
    ((x * k) % 0x1_0000_0000) as u32
}

/// The value of [`hash_u32`].
pub open spec fn hashed(x: u32) -> u32 {
    fold_halves(scale(fold_halves(x), MULTIPLIER))
}

/// The input that [`hash_u32`] takes to `y`.
pub open spec fn unhashed(y: u32) -> u32 {
    fold_halves(scale(fold_halves(y), INVERSE_MULTIPLIER))
}

/// Bijective integer hash (a shortened MurmurHash3 finalizer).
pub fn hash_u32(x: u32) -> (h: u32)
    ensures
        h == hashed(x),
        h ^ (h >> 16u32) == ((x ^ (x >> 16u32)) * 0x45d9f3b) % 0x1_0000_0000,
{
    let folded: u32 = x ^ (x >> 16u32);
    let scaled: u32 = folded.wrapping_mul(MULTIPLIER);
    proof {
        hash_multiplies_between_folds(x);
    }
    scaled ^ (scaled >> 16u32)
}

proof fn lemma_fold_halves_is_involution(x: u32)
    ensures
        fold_halves(fold_halves(x)) == x,
{
    assert((x ^ (x >> 16u32)) ^ ((x ^ (x >> 16u32)) >> 16u32) == x) by (bit_vector);
}

proof fn lemma_scale_undone(x: u32, k: u32, l: u32)
    requires
        (k * l) % 0x1_0000_0000 == 1,
    ensures
        scale(scale(x, k), l) == x,
{
    let m: int = 0x1_0000_0000;
    let (x, k, l) = (x as int, k as int, l as int);
    let q = (k * l) / m;
    assert(k * l == q * m + 1) by (nonlinear_arith)
        requires
            (k * l) % m == 1,
            q == (k * l) / m,
            m > 0,
    ;
    lemma_mul_mod_noop_left(x * k, l, m);
    lemma_mul_is_associative(x, k, l);
    assert(x * (k * l) == (x * q) * m + x) by (nonlinear_arith)
        requires
            k * l == q * m + 1,
    ;
    assert((m * (x * q) + x) % m == x % m) by {
        lemma_mod_multiples_vanish(x * q, x, m);
    }
    assert((x * q) * m == m * (x * q)) by (nonlinear_arith);
}

/// With the upper half mixed into the lower on both sides, the hash is a
/// product modulo two to the power 32.
pub proof fn hash_multiplies_between_folds(x: u32)
    ensures
        hashed(x) ^ (hashed(x) >> 16u32) == ((x ^ (x >> 16u32)) * 0x45d9f3b) % 0x1_0000_0000,
{
    lemma_fold_halves_is_involution(scale(fold_halves(x), MULTIPLIER));
}

/// The hash is a bijection: [`unhashed`] is its inverse on both sides.
pub proof fn hash_is_bijective(x: u32)
    ensures
        unhashed(hashed(x)) == x,
        hashed(unhashed(x)) == x,
{
    let a = fold_halves(x);
    lemma_fold_halves_is_involution(x);
    lemma_fold_halves_is_involution(scale(a, MULTIPLIER));
    lemma_fold_halves_is_involution(scale(a, INVERSE_MULTIPLIER));
    assert((MULTIPLIER * INVERSE_MULTIPLIER) % 0x1_0000_0000 == 1);
    assert((INVERSE_MULTIPLIER * MULTIPLIER) % 0x1_0000_0000 == 1);
    lemma_scale_undone(a, MULTIPLIER, INVERSE_MULTIPLIER);
    lemma_scale_undone(a, INVERSE_MULTIPLIER, MULTIPLIER);
}

/// Distinct inputs have distinct hashes.
pub proof fn hash_is_injective(x: u32, y: u32)
    requires
        hashed(x) == hashed(y),
    ensures
        x == y,
{
    hash_is_bijective(x);
    hash_is_bijective(y);
}

} // verus!
