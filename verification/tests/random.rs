//! The generator on concrete values.

use plaits_random::random::{
    fraction_numerator, get_sample, get_word, sample_from_word, seed, Rng, DEFAULT_SEED,
};

/// The value that a word stands for as a fraction, in single precision.
fn float_from_word(word: u32) -> f32 {
    fraction_numerator(word) as f32 / 4294967296.0
}

#[test]
fn owned_and_process_wide_generators_produce_the_same_sequence() {
    const SEED: u32 = 0xdead_beef;

    let mut rng = Rng::new(SEED);
    let mut process_wide: u32 = DEFAULT_SEED;
    seed(&mut process_wide, SEED);

    for _ in 0..32 {
        assert_eq!(rng.get_word(), get_word(&mut process_wide));
    }
}

#[test]
fn default_starts_at_default_seed() {
    assert_eq!(Rng::default().state(), DEFAULT_SEED);
}

#[test]
fn seed_restarts_the_sequence() {
    const SEED: u32 = 0x1234_5678;

    let mut rng = Rng::new(SEED);
    let first_word = rng.get_word();
    let _ = rng.get_word();
    rng.seed(SEED);

    assert_eq!(rng.get_word(), first_word);
}

#[test]
fn state_round_trips_through_new() {
    let mut rng = Rng::new(0x1234_5678);
    let _ = rng.get_word();
    let mut resumed = Rng::new(rng.state());

    assert_eq!(resumed.get_word(), rng.get_word());
}

#[test]
fn default_seed_is_hexadecimal_21() {
    assert_eq!(DEFAULT_SEED, 0x21);
}

#[test]
fn words_from_the_default_seed() {
    let mut rng = Rng::default();
    let mut shared: u32 = DEFAULT_SEED;

    for expected in [
        0x3fb5_1b0c_u32,
        0x4594_1afb,
        0x6a37_541e,
        0xe3b0_2ce5,
        0x60a1_7900,
        0x4bd8_185f,
    ] {
        assert_eq!(rng.get_word(), expected);
        assert_eq!(get_word(&mut shared), expected);
    }
}

#[test]
fn words_wrap_at_the_ends_of_the_range() {
    assert_eq!(Rng::new(0).get_word(), 0x3c6e_f35f);
    assert_eq!(Rng::new(0xffff_ffff).get_word(), 0x3c55_8d52);
    assert_eq!(Rng::new(0x26f5_b720).get_word(), 0xffff_ffff);
    assert_eq!(Rng::new(0x25d6_0fe5).get_word(), 0);
}

#[test]
fn samples_are_the_signed_high_halves_of_the_words() {
    let mut rng = Rng::new(0xdead_beef);
    let mut shared: u32 = 0xdead_beef;

    for expected in [27307_i16, -2583, 2441, 14499, 25459, -10182] {
        assert_eq!(rng.get_sample(), expected);
        assert_eq!(get_sample(&mut shared), expected);
    }
    assert_eq!(rng.state(), 0xd83a_273d);
    assert_eq!(shared, 0xd83a_273d);
}

#[test]
fn samples_at_the_ends_of_the_range() {
    assert_eq!(sample_from_word(0), 0);
    assert_eq!(sample_from_word(0x0000_ffff), 0);
    assert_eq!(sample_from_word(0x7fff_ffff), i16::MAX);
    assert_eq!(sample_from_word(0x8000_0000), i16::MIN);
    assert_eq!(sample_from_word(0xffff_0000), -1);
    assert_eq!(Rng::new(0xa6f5_b720).get_sample(), i16::MAX);
    assert_eq!(Rng::new(0xa5d6_0fe5).get_sample(), i16::MIN);
}

#[test]
fn word_and_sample_draws_advance_alike() {
    let mut by_words = Rng::new(7);
    let mut by_samples = Rng::new(7);

    for _ in 0..32 {
        let word = by_words.get_word();
        assert_eq!(by_samples.get_sample(), (word >> 16) as i16);
        assert_eq!(by_samples.state(), word);
        assert_eq!(by_words.state(), word);
    }
}

#[test]
fn reading_the_state_draws_nothing() {
    let rng = Rng::new(0x5eed);

    assert_eq!(rng.state(), 0x5eed);
    assert_eq!(rng.state(), 0x5eed);
}

#[test]
fn clone_continues_with_the_same_sequence() {
    let mut original = Rng::new(0x51a7_e123);
    let _ = original.get_word();
    let mut cloned = original.clone();

    assert_eq!(cloned.state(), original.state());
    let words: Vec<u32> = (0..32).map(|_| original.get_word()).collect();
    for word in words {
        assert_eq!(cloned.get_word(), word);
    }
}

#[test]
fn fractions_are_the_words_but_for_the_highest() {
    assert_eq!(fraction_numerator(0), 0);
    assert_eq!(fraction_numerator(0x8000_0000), 0x8000_0000);
    assert_eq!(fraction_numerator(0xffff_ff7f), 0xffff_ff7f);
    assert_eq!(fraction_numerator(0xffff_ff80), 0xffff_ff7f);
    assert_eq!(fraction_numerator(0xffff_ffff), 0xffff_ff7f);
}

#[test]
fn fractions_lie_in_the_unit_interval() {
    assert_eq!(float_from_word(0), 0.0);
    assert_eq!(float_from_word(0x4000_0000), 0.25);
    assert_eq!(float_from_word(0x8000_0000), 0.5);
    for word in [0xffff_ff7f_u32, 0xffff_ff80, 0xffff_ffff] {
        assert_eq!(float_from_word(word), 1.0 - f32::EPSILON / 2.0);
        assert!(float_from_word(word) < 1.0);
    }
}
