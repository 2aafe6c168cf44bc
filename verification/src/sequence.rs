//! The sequence behind the generator.
//!
//! The state of a generator is one 32-bit word. A draw replaces it by its
//! successor in a linear congruential sequence, and what is drawn (a word, a
//! sample) is read off the new state.

use vstd::arithmetic::div_mod::{
    lemma_add_mod_noop, lemma_fundamental_div_mod, lemma_fundamental_div_mod_converse_mod,
    lemma_mod_equivalence, lemma_mul_mod_noop_left, lemma_small_mod,
};
use vstd::prelude::*;

verus! {

/// Factor of the congruence.
pub const MULTIPLIER: u32 = 1664525;

/// Summand of the congruence.
pub const INCREMENT: u32 = 1013904223;

/// Factor of the congruence that steps back: the inverse of [`MULTIPLIER`] modulo
/// the number of states.
pub const INVERSE_MULTIPLIER: u32 = 4276115653;

/// Summand of the congruence that steps back.
pub const INVERSE_INCREMENT: u32 = 634785765;

/// Number of states, and of words: two to the power of the word's width.
pub open spec fn modulus() -> int {
    0x1_0000_0000
}

/// The state that follows `state`.
pub open spec fn successor(state: u32) -> u32 {
    ((state * MULTIPLIER + INCREMENT) % modulus()) as u32
}

/// The state that `state` follows.
pub open spec fn predecessor(state: u32) -> u32 {
    ((state * INVERSE_MULTIPLIER + INVERSE_INCREMENT) % modulus()) as u32
}

/// The state after `draws` draws, starting from `start`.
pub open spec fn nth_state(start: u32, draws: nat) -> u32
    decreases draws,
{
    if draws == 0 {
        start
    } else {
        successor(nth_state(start, (draws - 1) as nat))
    }
}

/// The sample in a word: its high 16 bits, read as a two's complement number.
pub open spec fn sample_value(word: u32) -> int {
    let high: int = word as int / 0x1_0000;
    if high < 0x8000 {
        high
    } else {
        high - 0x1_0000
    }
}

/// A successor is the linear function of the state, but for a multiple of two to
/// the power of 32.
pub proof fn law_step_is_congruent(state: u32)
    ensures
        (state * 1664525 + 1013904223 - successor(state)) % 0x1_0000_0000 == 0,
{
    lemma_mod_equivalence(
        state * MULTIPLIER + INCREMENT,
        successor(state) as int,
        modulus(),
    );
    lemma_small_mod(successor(state) as nat, modulus() as nat);
}

/// A sample is a signed 16-bit number and, read as an unsigned one, the high half
/// of its word: what the word holds besides is less than two to the power of 16.
pub proof fn law_sample_is_high_half(word: u32)
    ensures
        i16::MIN <= sample_value(word) <= i16::MAX,
        0 <= word - 0x1_0000 * (sample_value(word) % 0x1_0000) < 0x1_0000,
{
}

/// A sample has the sign and the order of its word: with both words read as
/// signed numbers, the sample of the greater one is not less.
pub proof fn law_samples_keep_signed_order(first: u32, second: u32)
    ensures
        sample_value(first) < 0 <==> first >= 0x8000_0000,
        first <= second < 0x8000_0000 ==> sample_value(first) <= sample_value(second),
        0x8000_0000 <= first <= second ==> sample_value(first) <= sample_value(second),
        second < 0x8000_0000 <= first ==> sample_value(first) < sample_value(second),
{
}

/// Two words have one sample exactly when they agree in their high halves.
pub proof fn law_sample_depends_on_high_half(high: u16, low: u16, other_high: u16, other_low: u16)
    ensures
        sample_value((high * 0x1_0000 + low) as u32) == sample_value(
            (other_high * 0x1_0000 + other_low) as u32,
        ) <==> high == other_high,
{
}

/// A word whose high half is one greater has the next sample, and after the
/// greatest sample comes the least.
pub proof fn law_next_high_half_is_next_sample(word: u32)
    requires
        word < 0xffff_0000,
    ensures
        sample_value(word) < i16::MAX ==> sample_value((word + 0x1_0000) as u32) == sample_value(
            word,
        ) + 1,
        sample_value(word) == i16::MAX ==> sample_value((word + 0x1_0000) as u32) == i16::MIN,
{
}

/// A congruence undoes another one where its factor is the inverse of the
/// other's and the two send zero back to zero.
proof fn lemma_inverse_congruence(x: int, a: int, c: int, inverse_a: int, inverse_c: int)
    requires
        0 <= x < modulus(),
        (a * inverse_a) % modulus() == 1,
        (c * inverse_a + inverse_c) % modulus() == 0,
    ensures
        (((x * a + c) % modulus()) * inverse_a + inverse_c) % modulus() == x,
{
    let m = modulus();
    let q = (x * a + c) / m;
    let r = (x * a + c) % m;
    let i = (a * inverse_a) / m;
    let j = (c * inverse_a + inverse_c) / m;
    lemma_fundamental_div_mod(x * a + c, m);
    lemma_fundamental_div_mod(a * inverse_a, m);
    lemma_fundamental_div_mod(c * inverse_a + inverse_c, m);
    let k = x * i + j - q * inverse_a;
    assert(r * inverse_a + inverse_c == k * m + x) by (nonlinear_arith)
        requires
            x * a + c == m * q + r,
            a * inverse_a == m * i + 1,
            c * inverse_a + inverse_c == m * j,
            k == x * i + j - q * inverse_a,
    ;
    lemma_fundamental_div_mod_converse_mod(r * inverse_a + inverse_c, m, k, x);
}

/// A step can be taken back: the state before a step is the inverse congruence
/// of the state after it.
pub proof fn law_step_back_undoes_step(state: u32)
    ensures
        (successor(state) * INVERSE_MULTIPLIER + INVERSE_INCREMENT) % modulus() == state,
        predecessor(successor(state)) == state,
{
    lemma_inverse_congruence(
        state as int,
        MULTIPLIER as int,
        INCREMENT as int,
        INVERSE_MULTIPLIER as int,
        INVERSE_INCREMENT as int,
    );
}

/// A step back can be taken again, so every state follows some state.
pub proof fn law_step_undoes_step_back(state: u32)
    ensures
        (predecessor(state) * MULTIPLIER + INCREMENT) % modulus() == state,
        successor(predecessor(state)) == state,
{
    lemma_inverse_congruence(
        state as int,
        INVERSE_MULTIPLIER as int,
        INVERSE_INCREMENT as int,
        MULTIPLIER as int,
        INCREMENT as int,
    );
}

/// The step is a bijection on the states: two states have one successor exactly
/// when they are equal, and every state is a successor.
pub proof fn law_step_is_bijective(first: u32, second: u32)
    ensures
        successor(first) == successor(second) <==> first == second,
        exists|state: u32| successor(state) == first,
{
    law_step_back_undoes_step(first);
    law_step_back_undoes_step(second);
    law_step_undoes_step_back(first);
}

/// The step is affine modulo the number of states: a state that is further by
/// `offset` has a successor that is further by the multiple of `offset`.
pub proof fn law_step_is_affine(state: u32, offset: u32)
    ensures
        successor(((state + offset) % modulus()) as u32) == (successor(state) + (offset
            * MULTIPLIER) % modulus()) % modulus(),
{
    let m = modulus();
    let a = MULTIPLIER as int;
    let c = INCREMENT as int;
    let sum = state + offset;
    lemma_add_mod_noop(state * a + c, offset * a, m);
    lemma_mul_mod_noop_left(sum, a, m);
    lemma_add_mod_noop((sum % m) * a, c, m);
    lemma_add_mod_noop(sum * a, c, m);
    assert(sum * a + c == (state * a + c) + offset * a) by (nonlinear_arith)
        requires
            sum == state + offset,
    ;
}

/// Whether `states` are the states that a generator passes through over
/// successive draws: each draw, of a word or of a sample, moves it to the
/// successor of the state it found.
pub open spec fn is_run(states: Seq<u32>) -> bool {
    &&& states.len() > 0
    &&& forall|i: int|
        0 < i < states.len() ==> #[trigger] states[i] == successor(states[i - 1])
}

/// Over a run, the state after any number of draws is fixed by the first state.
pub proof fn law_run_follows_sequence(states: Seq<u32>, draws: nat)
    requires
        is_run(states),
        draws < states.len(),
    ensures
        states[draws as int] == nth_state(states[0], draws),
    decreases draws,
{
    if draws > 0 {
        law_run_follows_sequence(states, (draws - 1) as nat);
        assert(states[draws as int] == successor(states[draws - 1]));
    }
}

/// Two runs that start in the same state agree draw by draw.
///
/// So an owned generator and a shared state word with the same seed produce the
/// same sequence, a clone continues with the sequence of its original, and
/// seeding a generator again with the seed it began at restarts its sequence.
pub proof fn law_equal_starts_agree(first: Seq<u32>, second: Seq<u32>, draws: nat)
    requires
        is_run(first),
        is_run(second),
        first[0] == second[0],
        draws < first.len(),
        draws < second.len(),
    ensures
        first[draws as int] == second[draws as int],
{
    law_run_follows_sequence(first, draws);
    law_run_follows_sequence(second, draws);
}

/// A generator made from the state of another one, after any number of draws,
/// continues the sequence of that one.
pub proof fn law_state_resumes_sequence(start: u32, before: nat, after: nat)
    ensures
        nth_state(nth_state(start, before), after) == nth_state(start, before + after),
    decreases after,
{
    if after > 0 {
        law_state_resumes_sequence(start, before, (after - 1) as nat);
    }
}

} // verus!
