//! A fast 16-bit pseudo random number generator, verified with Verus.
//!
//! - [`random`]: the generator, owned ([`random::Rng`]) or on a state word that
//!   the caller keeps.
//! - [`sequence`]: what the generator computes, as mathematics, and the laws that
//!   hold over any number of draws.
//! - [`period`]: which words the sequence holds, and when they come back.

pub mod period;
pub mod random;
pub mod sequence;
