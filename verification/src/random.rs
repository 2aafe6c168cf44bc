//! Fast 16-bit pseudo random number generator.
//!
//! [`Rng`] owns its state. The free functions do the same on a state word that
//! the caller keeps, such as one that a whole process shares.

use vstd::prelude::*;

use crate::sequence;

verus! {

/// Default seed for owned generators and for a process-wide state word.
pub const DEFAULT_SEED: u32 = 0x21;

#[inline]
fn next_state(state: u32) -> (next: u32)
    ensures
        next == sequence::successor(state),
        (state * 1664525 + 1013904223 - next) % 0x1_0000_0000 == 0,
{
    state.wrapping_mul(sequence::MULTIPLIER).wrapping_add(sequence::INCREMENT)
}

/// Restarts the sequence of a state word at `seed`.
#[inline]
pub fn seed(state: &mut u32, seed: u32)
    ensures
        *final(state) == seed,
{
    *state = seed;
}

/// Advances a state word and returns the next word.
#[inline]
pub fn get_word(state: &mut u32) -> (word: u32)
    ensures
        word == sequence::successor(*old(state)),
        (*old(state) * 1664525 + 1013904223 - word) % 0x1_0000_0000 == 0,
        *final(state) == word,
{
    *state = next_state(*state);
    *state
}

/// Advances a state word and returns the high 16 bits as a sample.
#[inline]
pub fn get_sample(state: &mut u32) -> (sample: i16)
    ensures
        *final(state) == sequence::successor(*old(state)),
        (*old(state) * 1664525 + 1013904223 - *final(state)) % 0x1_0000_0000 == 0,
        sample == sequence::sample_value(*final(state)),
        0 <= *final(state) - 0x1_0000 * (sample as int % 0x1_0000) < 0x1_0000,
        (sample as u16) as u32 == *final(state) >> 16,
{
    sample_from_word(get_word(state))
}

/// The sample in a word: its high 16 bits.
///
/// Read as an unsigned number, the sample is the word shifted down by 16 bits; what
/// the word holds besides is its low half.
#[inline]
pub fn sample_from_word(word: u32) -> (sample: i16)
    ensures
        sample == sequence::sample_value(word),
        0 <= word - 0x1_0000 * (sample as int % 0x1_0000) < 0x1_0000,
        (sample as u16) as u32 == word >> 16,
{
    let high: u32 = word >> 16;
    proof {
        assert(high == word / 0x1_0000 && high < 0x1_0000) by (bit_vector)
            requires
                high == word >> 16,
        ;
        assert(if high < 0x8000 {
            #[verifier::truncate] (high as i16) == high
        } else {
            #[verifier::truncate] (high as i16) == high - 0x1_0000
        }) by (bit_vector)
            requires
                high < 0x1_0000,
        ;
        assert(((#[verifier::truncate] (high as i16)) as u16) as u32 == high) by (bit_vector)
            requires
                high < 0x1_0000,
        ;
        sequence::law_sample_is_high_half(word);
    }
    #[verifier::truncate]
    (high as i16)
}

/// The numerator, over two to the power of 32, of the fraction in a word.
///
/// The fraction of a word is the word itself over two to the power of 32. A
/// single precision number holds 24 significant bits, so a numerator of 32 bits
/// is rounded to a multiple of 256, and moves by at most 128. The words that
/// would be rounded up to the denominator, and give one, are lowered to the
/// greatest word that is not.
#[inline]
pub fn fraction_numerator(word: u32) -> (numerator: u32)
    ensures
        numerator <= word,
        numerator + 128 < 0x1_0000_0000,
        numerator < word ==> numerator + 129 == 0x1_0000_0000,
        numerator + 128 < sequence::modulus(),
        word + 128 < sequence::modulus() ==> numerator == word,
        word + 128 >= sequence::modulus() ==> numerator + 129 == sequence::modulus(),
{
    if word > 0xffff_ff7f {
        0xffff_ff7f
    } else {
        word
    }
}

/// Owned pseudo random number generator.
///
/// Cloning copies the current state, so the clone continues with exactly the
/// same sequence. [`Default`] starts at [`DEFAULT_SEED`].
#[derive(Debug)]
pub struct Rng {
    state: u32,
}

impl View for Rng {
    type V = u32;

    /// The current state.
    closed spec fn view(&self) -> u32 {
        self.state
    }
}

impl Rng {
    /// Creates a generator starting at `seed`.
    pub fn new(seed: u32) -> (rng: Self)
        ensures
            rng@ == seed,
    {
        Self { state: seed }
    }

    /// Restarts the sequence at `seed`.
    pub fn seed(&mut self, seed: u32)
        ensures
            final(self)@ == seed,
    {
        self.state = seed;
    }

    /// Returns the current state.
    pub fn state(&self) -> (state: u32)
        ensures
            state == self@,
    {
        self.state
    }

    /// Advances the generator and returns the next word.
    #[inline]
    pub fn get_word(&mut self) -> (word: u32)
        ensures
            word == sequence::successor(old(self)@),
            (old(self)@ * 1664525 + 1013904223 - word) % 0x1_0000_0000 == 0,
            final(self)@ == word,
    {
        self.state = next_state(self.state);
        self.state
    }

    /// Advances the generator and returns the high 16 bits as a sample.
    #[inline]
    pub fn get_sample(&mut self) -> (sample: i16)
        ensures
            final(self)@ == sequence::successor(old(self)@),
            (old(self)@ * 1664525 + 1013904223 - final(self)@) % 0x1_0000_0000 == 0,
            sample == sequence::sample_value(final(self)@),
            0 <= final(self)@ - 0x1_0000 * (sample as int % 0x1_0000) < 0x1_0000,
            (sample as u16) as u32 == final(self)@ >> 16,
    {
        sample_from_word(self.get_word())
    }
}

impl Clone for Rng {
    fn clone(&self) -> (copy: Self)
        ensures
            copy@ == self@,
    {
        Self { state: self.state }
    }
}

impl Default for Rng {
    fn default() -> (rng: Self)
        ensures
            rng@ == DEFAULT_SEED,
    {
        Self::new(DEFAULT_SEED)
    }
}

} // verus!
