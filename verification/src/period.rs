//! When the words of the sequence come back.
//!
//! The congruence has the longest period there is: every word comes once in
//! each round of as many draws as there are words. The low bits come back much
//! sooner: the lowest `bits` bits of the words have a period of only two to the
//! power of `bits`. A sample takes the high bits, and every sample comes equally
//! often in a round.
//!
//! The proofs rest on the closed form of the sequence. With `a` for the
//! multiplier and `c` for the increment, the state after `n` draws from `s` is
//! `s + (1 + a + ... + a^(n - 1)) * ((a - 1) * s + c)` modulo the number of
//! states. The second factor is odd, so the state is back at `s`, in its lowest
//! bits, exactly when the geometric sum is a multiple of the power of two; and
//! as `a - 1` is a multiple of four, that is the case exactly when `n` is.

use vstd::arithmetic::div_mod::{
    lemma_fundamental_div_mod, lemma_fundamental_div_mod_converse_mod, lemma_mod_equivalence,
    lemma_mod_mod, lemma_mod_multiples_basic, lemma_mod_multiples_vanish,
    lemma_mul_mod_noop_right, lemma_small_mod,
};
use vstd::arithmetic::power2::{
    lemma2_to64, lemma_pow2_adds, lemma_pow2_pos, lemma_pow2_unfold, pow2,
};
use vstd::prelude::*;
use vstd::set_lib::{lemma_int_range, lemma_map_size, set_int_range};

use crate::sequence::{self, INCREMENT, MULTIPLIER};

verus! {

/// The geometric sum of the multiplier with `terms` terms, in Horner's form.
pub open spec fn geometric_sum(terms: nat) -> int
    decreases terms,
{
    if terms == 0 {
        0
    } else {
        1 + MULTIPLIER * geometric_sum((terms - 1) as nat)
    }
}

/// An odd factor does not change by which powers of two a number is divisible.
proof fn lemma_odd_factor(x: int, odd: int, bits: nat)
    requires
        odd % 2 == 1,
    ensures
        (x * odd) % (pow2(bits) as int) == 0 <==> x % (pow2(bits) as int) == 0,
    decreases bits,
{
    let power = pow2(bits) as int;
    lemma_pow2_pos(bits);
    if x % power == 0 {
        lemma_mul_mod_noop_right(odd, x, power);
        assert((x * odd) == odd * x) by (nonlinear_arith);
        assert(odd * 0 == 0);
    }
    if (x * odd) % power == 0 {
        if bits == 0 {
            lemma2_to64();
        } else {
            let half = pow2((bits - 1) as nat) as int;
            lemma_pow2_pos((bits - 1) as nat);
            lemma_pow2_unfold(bits);
            lemma_fundamental_div_mod(x * odd, power);
            let q = (x * odd) / power;
            let h = odd / 2;
            assert(x * odd == 2 * (half * q)) by (nonlinear_arith)
                requires
                    x * odd == power * q,
                    power == 2 * half,
            ;
            assert(x * odd == 2 * (x * h) + x) by (nonlinear_arith)
                requires
                    odd == 2 * h + 1,
            ;
            let y = x / 2;
            assert(x == 2 * y);
            assert(y * odd == half * q) by (nonlinear_arith)
                requires
                    x * odd == 2 * (half * q),
                    x == 2 * y,
            ;
            lemma_mod_multiples_basic(q, half);
            assert(q * half == half * q) by (nonlinear_arith);
            lemma_odd_factor(y, odd, (bits - 1) as nat);
            lemma_double_divisible(y, bits);
        }
    }
}

/// Doubling a number raises by one the powers of two that divide it.
proof fn lemma_double_divisible(x: int, bits: nat)
    requires
        bits > 0,
    ensures
        (2 * x) % (pow2(bits) as int) == 0 <==> x % (pow2((bits - 1) as nat) as int) == 0,
{
    let half = pow2((bits - 1) as nat) as int;
    lemma_pow2_pos((bits - 1) as nat);
    lemma_pow2_unfold(bits);
    let q = x / half;
    let r = x % half;
    lemma_fundamental_div_mod(x, half);
    assert(2 * x == q * (2 * half) + 2 * r) by (nonlinear_arith)
        requires
            x == half * q + r,
    ;
    lemma_fundamental_div_mod_converse_mod(2 * x, 2 * half, q, 2 * r);
}

/// The sum of `m + n` terms, from those of `m` terms and of `n` terms.
proof fn lemma_geometric_sum_adds(m: nat, n: nat)
    ensures
        geometric_sum(m + n) == geometric_sum(m) + geometric_sum(n) + (MULTIPLIER - 1) * (
        geometric_sum(m) * geometric_sum(n)),
    decreases m,
{
    if m == 0 {
        assert((MULTIPLIER - 1) * (geometric_sum(0) * geometric_sum(n)) == 0) by (nonlinear_arith)
            requires
                geometric_sum(0) == 0,
        ;
    } else {
        let k = (m - 1) as nat;
        lemma_geometric_sum_adds(k, n);
        let g = geometric_sum(k);
        let h = geometric_sum(n);
        let a = MULTIPLIER as int;
        assert((k + n) as nat == (m + n - 1) as nat);
        assert(geometric_sum(m + n) == 1 + a * geometric_sum(k + n));
        assert(1 + a * (g + h + (a - 1) * (g * h)) == (1 + a * g) + h + (a - 1) * ((1 + a * g)
            * h)) by (nonlinear_arith);
    }
}

/// A geometric sum is divisible by the powers of two that divide its number of
/// terms, and by no others.
proof fn lemma_geometric_sum_divisible(terms: nat, bits: nat)
    ensures
        geometric_sum(terms) % (pow2(bits) as int) == 0 <==> terms as int % (pow2(bits) as int)
            == 0,
    decreases bits,
{
    lemma_pow2_pos(bits);
    if bits == 0 {
        lemma2_to64();
    } else {
        let m = terms / 2;
        let g = geometric_sum(m);
        let a = MULTIPLIER as int;
        lemma_geometric_sum_adds(m, m);
        // The multiplier is one more than four times 416131.
        let odd = 1 + 2 * (416131 * g);
        assert(2 * (g * odd) == g + g + (a - 1) * (g * g)) by (nonlinear_arith)
            requires
                odd == 1 + 2 * (416131 * g),
                a == 1664525,
        ;
        if terms % 2 == 0 {
            assert(terms == m + m);
            assert(geometric_sum(terms) == 2 * (g * odd));
            lemma_double_divisible(g * odd, bits);
            lemma_odd_factor(g, odd, (bits - 1) as nat);
            lemma_geometric_sum_divisible(m, (bits - 1) as nat);
            lemma_double_divisible(m as int, bits);
        } else {
            assert(terms == m + m + 1);
            assert(geometric_sum(terms) == 1 + a * (2 * (g * odd)));
            assert(geometric_sum(terms) == 1 + 2 * (a * (g * odd))) by (nonlinear_arith)
                requires
                    geometric_sum(terms) == 1 + a * (2 * (g * odd)),
            ;
            lemma_odd_not_divisible(a * (g * odd), bits);
            lemma_odd_not_divisible(m as int, bits);
        }
    }
}

/// No odd number is divisible by a power of two above one.
proof fn lemma_odd_not_divisible(x: int, bits: nat)
    requires
        bits > 0,
    ensures
        (1 + 2 * x) % (pow2(bits) as int) != 0,
{
    let half = pow2((bits - 1) as nat) as int;
    lemma_pow2_pos(bits);
    lemma_pow2_unfold(bits);
    lemma_fundamental_div_mod(1 + 2 * x, 2 * half);
    let q = (1 + 2 * x) / (2 * half);
    assert((2 * half) * q == 2 * (half * q)) by (nonlinear_arith);
}

/// The lowest `bits` bits of a successor depend on those of the state alone: two
/// states that agree in them have successors that agree in them.
pub proof fn law_low_bits_step(first: u32, second: u32, bits: nat)
    requires
        bits <= 32,
        first as int % (pow2(bits) as int) == second as int % (pow2(bits) as int),
    ensures
        sequence::successor(first) as int % (pow2(bits) as int) == sequence::successor(
            second,
        ) as int % (pow2(bits) as int),
{
    let power = pow2(bits) as int;
    let a = MULTIPLIER as int;
    let x = first * a + INCREMENT;
    let y = second * a + INCREMENT;
    lemma_pow2_pos(bits);
    lemma_low_bits_of_remainder(x, bits);
    lemma_low_bits_of_remainder(y, bits);
    lemma_mod_equivalence(first as int, second as int, power);
    lemma_mul_mod_noop_right(a, first - second, power);
    lemma_small_mod(0, power as nat);
    assert(x - y == a * (first - second)) by (nonlinear_arith)
        requires
            x == first * a + INCREMENT,
            y == second * a + INCREMENT,
    ;
    lemma_mod_equivalence(x, y, power);
}

/// Reducing a number to a state keeps its lowest `bits` bits.
proof fn lemma_low_bits_of_remainder(x: int, bits: nat)
    requires
        bits <= 32,
    ensures
        (x % sequence::modulus()) % (pow2(bits) as int) == x % (pow2(bits) as int),
{
    let power = pow2(bits) as int;
    let rest = pow2((32 - bits) as nat) as int;
    lemma_pow2_pos(bits);
    lemma_pow2_pos((32 - bits) as nat);
    lemma_pow2_adds(bits, (32 - bits) as nat);
    lemma2_to64();
    lemma_mod_mod(x, power, rest);
}

/// The closed form of the sequence.
pub proof fn law_closed_form(start: u32, draws: nat)
    ensures
        sequence::nth_state(start, draws) as int == (start + geometric_sum(draws) * ((MULTIPLIER
            - 1) * start + INCREMENT)) % sequence::modulus(),
    decreases draws,
{
    let a = MULTIPLIER as int;
    let c = INCREMENT as int;
    let m = sequence::modulus();
    let s = start as int;
    let step = (a - 1) * s + c;
    if draws == 0 {
        assert(0 * step == 0);
        lemma_small_mod(start as nat, m as nat);
    } else {
        let g = geometric_sum((draws - 1) as nat);
        law_closed_form(start, (draws - 1) as nat);
        let full = s + g * step;
        let q = full / m;
        let state = sequence::nth_state(start, (draws - 1) as nat);
        lemma_fundamental_div_mod(full, m);
        assert(full == m * q + state);
        assert(full * a + c == m * (q * a) + (state * a + c)) by (nonlinear_arith)
            requires
                full == m * q + state,
        ;
        lemma_mod_multiples_vanish(q * a, state * a + c, m);
        assert(full * a + c == s + (1 + a * g) * step) by (nonlinear_arith)
            requires
                full == s + g * step,
                step == (a - 1) * s + c,
        ;
    }
}

/// In its lowest `bits` bits a state comes back to its start exactly after the
/// multiples of two to the power of `bits` draws.
proof fn lemma_low_bits_return(start: u32, draws: nat, bits: nat)
    requires
        bits <= 32,
    ensures
        (sequence::nth_state(start, draws) - start) % (pow2(bits) as int) == 0 <==> draws as int % (
        pow2(bits) as int) == 0,
{
    let power = pow2(bits) as int;
    let rest = pow2((32 - bits) as nat) as int;
    let m = sequence::modulus();
    lemma_pow2_pos(bits);
    lemma_pow2_adds(bits, (32 - bits) as nat);
    lemma2_to64();
    assert(m == power * rest);
    let step = (MULTIPLIER - 1) * start + INCREMENT;
    let change = geometric_sum(draws) * step;
    let q = (start + change) / m;
    law_closed_form(start, draws);
    lemma_fundamental_div_mod(start + change, m);
    assert(m * q == power * (rest * q)) by (nonlinear_arith)
        requires
            m == power * rest,
    ;
    let moved = sequence::nth_state(start, draws) - start;
    assert(change == power * (rest * q) + moved);
    lemma_mod_multiples_vanish(rest * q, moved, power);
    lemma_odd_factor(geometric_sum(draws), step, bits);
    lemma_geometric_sum_divisible(draws, bits);
}

/// The lowest `bits` bits of the states have period two to the power of `bits`,
/// and no shorter one: two states of one sequence agree in them exactly when the
/// numbers of draws that lead to them do.
pub proof fn law_low_bits_period(start: u32, first: nat, second: nat, bits: nat)
    requires
        bits <= 32,
    ensures
        sequence::nth_state(start, first) as int % (pow2(bits) as int) == sequence::nth_state(
            start,
            second,
        ) as int % (pow2(bits) as int) <==> first as int % (pow2(bits) as int) == second as int % (
        pow2(bits) as int),
    decreases first,
{
    if first > second {
        law_low_bits_period(start, second, first, bits);
    } else {
        let between = (second - first) as nat;
        let power = pow2(bits) as int;
        let state = sequence::nth_state(start, first);
        lemma_pow2_pos(bits);
        sequence::law_state_resumes_sequence(start, first, between);
        lemma_low_bits_return(state, between, bits);
        lemma_mod_equivalence(sequence::nth_state(state, between) as int, state as int, power);
        lemma_mod_equivalence(second as int, first as int, power);
    }
}

/// The sequence has the full period: two states of it are equal exactly when the
/// numbers of draws that lead to them are equal modulo the number of states.
pub proof fn law_full_period(start: u32, first: nat, second: nat)
    ensures
        sequence::nth_state(start, first) == sequence::nth_state(start, second) <==> first as int
            % sequence::modulus() == second as int % sequence::modulus(),
{
    let m = sequence::modulus();
    lemma2_to64();
    law_low_bits_period(start, first, second, 32);
    lemma_small_mod(sequence::nth_state(start, first) as nat, m as nat);
    lemma_small_mod(sequence::nth_state(start, second) as nat, m as nat);
}

/// A remainder modulo twice `half` is that modulo `half`, or `half` above it.
proof fn lemma_mod_double(x: int, half: int)
    requires
        half > 0,
    ensures
        x % (2 * half) == x % half || x % (2 * half) == x % half + half,
{
    let q = x / half;
    let r = x % half;
    let h = q / 2;
    lemma_fundamental_div_mod(x, half);
    if q % 2 == 0 {
        assert(x == h * (2 * half) + r) by (nonlinear_arith)
            requires
                x == half * q + r,
                q == 2 * h,
        ;
        lemma_fundamental_div_mod_converse_mod(x, 2 * half, h, r);
    } else {
        assert(x == h * (2 * half) + (r + half)) by (nonlinear_arith)
            requires
                x == half * q + r,
                q == 2 * h + 1,
        ;
        lemma_fundamental_div_mod_converse_mod(x, 2 * half, h, r + half);
    }
}

/// Finds the number of draws after which the lowest `bits` bits of the state are
/// those of `word`.
proof fn lemma_low_bits_reached(start: u32, word: u32, bits: nat) -> (draws: nat)
    requires
        bits <= 32,
    ensures
        draws < pow2(bits),
        sequence::nth_state(start, draws) as int % (pow2(bits) as int) == word as int % (pow2(
            bits,
        ) as int),
    decreases bits,
{
    if bits == 0 {
        lemma2_to64();
        0
    } else {
        let low = (bits - 1) as nat;
        let half = pow2(low);
        lemma_pow2_pos(low);
        lemma_pow2_unfold(bits);
        let draws = lemma_low_bits_reached(start, word, low);
        let later = (draws + half) as nat;
        let x = sequence::nth_state(start, draws) as int;
        let y = sequence::nth_state(start, later) as int;
        if x % (2 * half as int) == word as int % (2 * half as int) {
            draws
        } else {
            lemma_mod_multiples_vanish(1, draws as int, half as int);
            law_low_bits_period(start, draws, later, low);
            lemma_small_mod(draws, 2 * half);
            lemma_small_mod(later, 2 * half);
            law_low_bits_period(start, draws, later, bits);
            lemma_mod_double(x, half as int);
            lemma_mod_double(y, half as int);
            lemma_mod_double(word as int, half as int);
            later
        }
    }
}

/// From every start every word comes, and comes exactly once, within as many
/// draws as there are words.
pub proof fn law_every_word_comes_once(start: u32, word: u32)
    ensures
        exists|draws: nat|
            1 <= draws <= sequence::modulus() && sequence::nth_state(start, draws) == word,
        forall|first: nat, second: nat|
            1 <= first <= sequence::modulus() && 1 <= second <= sequence::modulus()
                && sequence::nth_state(start, first) == word && sequence::nth_state(start, second)
                == word ==> first == second,
{
    let m = sequence::modulus();
    lemma2_to64();
    let found = lemma_low_bits_reached(start, word, 32);
    lemma_small_mod(sequence::nth_state(start, found) as nat, m as nat);
    lemma_small_mod(word as nat, m as nat);
    let draws = if found == 0 {
        m as nat
    } else {
        found
    };
    law_full_period(start, found, draws);
    assert(sequence::nth_state(start, draws) == word);
    assert forall|first: nat, second: nat|
        1 <= first <= m && 1 <= second <= m && sequence::nth_state(start, first) == word
            && sequence::nth_state(start, second) == word implies first == second by {
        law_full_period(start, first, second);
    }
}

/// Generators in different states stay in different states: from different
/// seeds the words differ after every number of draws.
pub proof fn law_different_seeds_never_meet(first: u32, second: u32, draws: nat)
    requires
        first != second,
    ensures
        sequence::nth_state(first, draws) != sequence::nth_state(second, draws),
    decreases draws,
{
    if draws > 0 {
        let previous = (draws - 1) as nat;
        law_different_seeds_never_meet(first, second, previous);
        sequence::law_step_is_bijective(
            sequence::nth_state(first, previous),
            sequence::nth_state(second, previous),
        );
    }
}

/// The draws of one round from `start` that give `sample`.
pub open spec fn draws_of_sample(start: u32, sample: int) -> Set<nat> {
    Set::new(
        |draws: nat|
            1 <= draws <= sequence::modulus() && sequence::sample_value(
                sequence::nth_state(start, draws),
            ) == sample,
    )
}

/// Samples are evenly distributed: in one round every 16-bit number, signed,
/// comes as often as every other.
pub proof fn law_samples_come_equally_often(start: u32, sample: i16)
    ensures
        draws_of_sample(start, sample as int).finite(),
        draws_of_sample(start, sample as int).len() == 0x1_0000,
{
    let m = sequence::modulus();
    let high: int = if sample >= 0 {
        sample as int
    } else {
        sample + 0x1_0000
    };
    let words = set_int_range(high * 0x1_0000, (high + 1) * 0x1_0000);
    let draws = draws_of_sample(start, sample as int);
    let draw_of = |word: int|
        choose|draws: nat| 1 <= draws <= m && sequence::nth_state(start, draws) == word;
    assert forall|word: int| words.contains(word) implies draws.contains(#[trigger] draw_of(word))
        && sequence::nth_state(start, draw_of(word)) == word by {
        law_every_word_comes_once(start, word as u32);
        let found = choose|draws: nat|
            1 <= draws <= m && sequence::nth_state(start, draws) == word as u32;
        assert(1 <= found <= m && sequence::nth_state(start, found) == word);
    }
    assert forall|draw: nat| draws.contains(draw) implies exists|word: int|
        words.contains(word) && draw == #[trigger] draw_of(word) by {
        let word = sequence::nth_state(start, draw);
        assert(words.contains(word as int));
        law_every_word_comes_once(start, word);
        assert(draw == draw_of(word as int));
    }
    assert(words.map(draw_of) =~= draws);
    lemma_int_range(high * 0x1_0000, (high + 1) * 0x1_0000);
    lemma_map_size(words, draws, draw_of);
}

} // verus!
