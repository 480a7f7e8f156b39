//! Access to the channels of one bus sample.

use vstd::prelude::*;
use vstd::arithmetic::power2::pow2;
use vstd::bits::lemma_usize_shr_is_div;

verus! {

/// One sample of a parallel bus: channel `c` is bit `c` of the word.
pub trait Bus {
    /// Number of channels the sample type carries.
    spec fn width() -> nat;

    /// Level of channel `c`, 0 or 1.
    spec fn level(&self, c: usize) -> usize;

    /// The sample as a raw word.
    spec fn word(&self) -> usize;

    /// A channel level is a single bit.
    proof fn lemma_level_is_bit(&self, c: usize)
        ensures
            self.level(c) <= 1,
    ;

    /// Channel `c` is bit `c` of the word, as far as the word reaches.
    proof fn lemma_level_of_word(&self, c: usize)
        requires
            c < Self::width(),
            c < usize::BITS,
        ensures
            self.level(c) == (self.word() >> c) & 1,
    ;

    /// Extracts the level of channel `c`.
    fn channel(&self, c: usize) -> (bit: usize)
        requires
            c < Self::width(),
        ensures
            bit == self.level(c),
            bit <= 1,
    ;

    /// Returns the whole sample as a word.
    fn as_usize(&self) -> (word: usize)
        ensures
            word == self.word(),
    ;
}

impl Bus for u8 {
    open spec fn width() -> nat {
        8
    }

    open spec fn level(&self, c: usize) -> usize {
        ((*self >> c) & 1) as usize
    }

    open spec fn word(&self) -> usize {
        *self as usize
    }

    proof fn lemma_level_is_bit(&self, c: usize) {
        let x = *self;
        assert((x >> c) & 1 <= 1) by (bit_vector);
    }

    proof fn lemma_level_of_word(&self, c: usize) {
        let x = *self;
        assert(((x >> c) & 1) as usize == ((x as usize) >> c) & 1) by (bit_vector)
            requires
                c < 8,
        ;
    }

    fn channel(&self, c: usize) -> (bit: usize) {
        let x: u8 = *self;
        assert((x >> c) & 1 <= 1) by (bit_vector);
        ((x >> c) & 1) as usize
    }

    fn as_usize(&self) -> (word: usize) {
        *self as usize
    }
}

impl Bus for usize {
    open spec fn width() -> nat {
        usize::BITS as nat
    }

    open spec fn level(&self, c: usize) -> usize {
        (*self >> c) & 1
    }

    open spec fn word(&self) -> usize {
        *self
    }

    proof fn lemma_level_is_bit(&self, c: usize) {
        let x = *self;
        assert((x >> c) & 1 <= 1) by (bit_vector);
    }

    proof fn lemma_level_of_word(&self, c: usize) {
    }

    fn channel(&self, c: usize) -> (bit: usize) {
        let x: usize = *self;
        assert((x >> c) & 1 <= 1) by (bit_vector);
        (x >> c) & 1
    }

    fn as_usize(&self) -> (word: usize) {
        *self
    }
}

impl Bus for i32 {
    open spec fn width() -> nat {
        32
    }

    open spec fn level(&self, c: usize) -> usize {
        ((*self >> c) & 1) as usize
    }

    /// A negative sample is sign-extended to the width of the word.
    open spec fn word(&self) -> usize {
        *self as usize
    }

    proof fn lemma_level_is_bit(&self, c: usize) {
        let x = *self;
        assert(0 <= (x >> c) & 1 <= 1) by (bit_vector);
    }

    proof fn lemma_level_of_word(&self, c: usize) {
        let x = *self;
        assert(((x >> c) & 1) as usize == ((x as usize) >> c) & 1) by (bit_vector)
            requires
                c < 32,
        ;
    }

    fn channel(&self, c: usize) -> (bit: usize) {
        let x: i32 = *self;
        assert(0 <= (x >> c) & 1 <= 1) by (bit_vector);
        ((x >> c) & 1) as usize
    }

    fn as_usize(&self) -> (word: usize) {
        #[verifier::truncate]
        (*self as usize)
    }
}

/// Channel `c` of a word is binary digit `c` of its value: channel 0 is
/// the lowest bit.
pub proof fn lemma_level_is_digit(sample: usize, c: usize)
    requires
        c < usize::BITS,
    ensures
        sample.level(c) == (sample as nat / pow2(c as nat)) % 2,
{
    lemma_usize_shr_is_div(sample, c);
    let shifted = sample >> c;
    assert(shifted & 1 == shifted % 2) by (bit_vector);
}

impl<'a, T: Bus> Bus for &'a T {
    open spec fn width() -> nat {
        T::width()
    }

    open spec fn level(&self, c: usize) -> usize {
        (**self).level(c)
    }

    open spec fn word(&self) -> usize {
        (**self).word()
    }

    proof fn lemma_level_is_bit(&self, c: usize) {
        (**self).lemma_level_is_bit(c);
    }

    proof fn lemma_level_of_word(&self, c: usize) {
        (**self).lemma_level_of_word(c);
    }

    fn channel(&self, c: usize) -> (bit: usize) {
        (**self).channel(c)
    }

    fn as_usize(&self) -> (word: usize) {
        (**self).as_usize()
    }
}

} // verus!
