//! Powers of two in a machine word.

use vstd::prelude::*;
use vstd::arithmetic::power2::{lemma2_to64, lemma2_to64_rest, lemma_pow2_strictly_increases, pow2};
use vstd::bits::lemma_usize_shl_is_mul;

verus! {

/// The values of a word are those below two to the power of its width.
pub proof fn lemma_usize_below_pow2_bits()
    ensures
        usize::MAX + 1 == pow2(usize::BITS as nat),
{
    lemma2_to64();
    lemma2_to64_rest();
}

/// A power of two fits a word as soon as its exponent is below the width
/// of the word, and only then.
pub proof fn lemma_pow2_fits(e: nat)
    ensures
        e < usize::BITS <==> pow2(e) <= usize::MAX,
{
    lemma_usize_below_pow2_bits();
    if e < usize::BITS {
        lemma_pow2_strictly_increases(e, usize::BITS as nat);
    } else if e > usize::BITS {
        lemma_pow2_strictly_increases(usize::BITS as nat, e);
    }
}

/// In a word, 1 shifted left by `e` is the power of two with exponent `e`.
pub proof fn lemma_one_shl(e: usize)
    requires
        e < usize::BITS,
    ensures
        1usize << e == pow2(e as nat),
{
    lemma_pow2_fits(e as nat);
    lemma_usize_shl_is_mul(1usize, e);
}

} // verus!
