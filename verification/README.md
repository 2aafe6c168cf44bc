# plaits_random

A fast 16-bit pseudo random number generator for audio synthesis, verified with
Verus.

- `src/random.rs`: the generator. `Rng` owns its state; the free functions work
  on a state word that the caller keeps.
- `src/sequence.rs`: the linear congruential sequence that the generator walks
  through, its step forward and back, and the laws of successive draws.
- `src/period.rs`: the closed form of the sequence, its full period, the period
  of its low bits and the even distribution of the samples.
- `app/lib.rs`: the process-wide generator and the floating point draws.
