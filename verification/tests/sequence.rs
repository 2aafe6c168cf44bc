//! The laws of the sequence, on concrete values.

use plaits_random::random::{sample_from_word, Rng};
use plaits_random::sequence::{INCREMENT, INVERSE_INCREMENT, INVERSE_MULTIPLIER, MULTIPLIER};

/// Factor and summand of the map that makes two to the power of `doublings` draws.
fn jump(doublings: u32) -> (u32, u32) {
    let mut factor = MULTIPLIER;
    let mut summand = INCREMENT;
    for _ in 0..doublings {
        summand = factor.wrapping_mul(summand).wrapping_add(summand);
        factor = factor.wrapping_mul(factor);
    }
    (factor, summand)
}

#[test]
fn jumps_make_many_draws_at_once() {
    let mut rng = Rng::new(0x21);
    let (factor, summand) = jump(10);
    for _ in 0..1024 {
        let _ = rng.get_word();
    }
    assert_eq!(rng.state(), 0x21_u32.wrapping_mul(factor).wrapping_add(summand));
}

#[test]
fn the_period_is_the_number_of_words() {
    assert_eq!(jump(32), (1, 0));
    assert_eq!(jump(31), (1, 0x8000_0000));
}

#[test]
fn samples_come_equally_often() {
    let (factor, summand) = jump(16);
    let mut rng = Rng::new(0x21);
    for _ in 0..8 {
        let mut state = rng.get_word();
        let mut seen = vec![false; 0x1_0000];
        for _ in 0..0x1_0000 {
            let sample = (i32::from(sample_from_word(state)) + 0x8000) as usize;
            assert!(!seen[sample]);
            seen[sample] = true;
            state = state.wrapping_mul(factor).wrapping_add(summand);
        }
        assert_eq!(state, rng.state());
    }
}

#[test]
fn states_have_the_closed_form() {
    for start in [0_u32, 0x21, 0xdead_beef, 0xffff_ffff] {
        let mut rng = Rng::new(start);
        let step = (MULTIPLIER - 1).wrapping_mul(start).wrapping_add(INCREMENT);
        let mut sum: u32 = 0;
        for _ in 0..100 {
            sum = 1_u32.wrapping_add(MULTIPLIER.wrapping_mul(sum));
            assert_eq!(rng.get_word(), start.wrapping_add(sum.wrapping_mul(step)));
        }
    }
}

#[test]
fn a_later_state_resumes_the_sequence() {
    let mut whole = Rng::new(0x1234_5678);
    for _ in 0..10 {
        let _ = whole.get_word();
    }
    let mut resumed = Rng::new(whole.state());
    for _ in 0..10 {
        assert_eq!(resumed.get_word(), whole.get_word());
    }
}

#[test]
fn the_lowest_bit_alternates() {
    let mut rng = Rng::new(0x21);
    for draw in 1..100_u32 {
        assert_eq!(rng.get_word() % 2, (draw + 1) % 2);
    }
}

#[test]
fn low_bits_run_through_their_full_period() {
    for bits in 1..=16_u32 {
        let period: u32 = 1 << bits;
        let mut rng = Rng::new(0xdead_beef);
        let mut seen = vec![false; period as usize];
        for _ in 0..period {
            let low = (rng.get_word() % period) as usize;
            assert!(!seen[low]);
            seen[low] = true;
        }
        assert!(seen.iter().all(|hit| *hit));
        assert_eq!(rng.state() % period, 0xdead_beef_u32 % period);
    }
}

#[test]
fn different_seeds_never_meet() {
    let mut first = Rng::new(0x21);
    let mut second = Rng::new(0xdead_beef);
    for _ in 0..10_000 {
        assert_ne!(first.get_word(), second.get_word());
    }
}

/// States at the ends of the range and in between.
const STATES: [u32; 7] = [
    0,
    1,
    0x21,
    0x7fff_ffff,
    0x8000_0000,
    0xdead_beef,
    0xffff_ffff,
];

fn step(state: u32) -> u32 {
    Rng::new(state).get_word()
}

fn step_back(state: u32) -> u32 {
    state
        .wrapping_mul(INVERSE_MULTIPLIER)
        .wrapping_add(INVERSE_INCREMENT)
}

#[test]
fn steps_can_be_taken_back() {
    assert_eq!(step_back(0x3fb5_1b0c), 0x21);
    assert_eq!(step_back(0), 0x25d6_0fe5);
    for state in STATES {
        assert_eq!(step_back(step(state)), state);
        assert_eq!(step(step_back(state)), state);
    }
}

#[test]
fn steps_are_affine() {
    for state in STATES {
        for offset in STATES {
            assert_eq!(
                step(state.wrapping_add(offset)),
                step(state).wrapping_add(offset.wrapping_mul(MULTIPLIER))
            );
        }
    }
}

#[test]
fn low_bits_of_a_step_depend_on_low_bits_only() {
    for bits in 1..=31_u32 {
        let power: u32 = 1 << bits;
        for state in STATES {
            for other in STATES {
                let agreeing = state.wrapping_add(other.wrapping_mul(power));
                assert_eq!(agreeing % power, state % power);
                assert_eq!(step(agreeing) % power, step(state) % power);
            }
        }
    }
}
