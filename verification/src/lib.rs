//! A deterministic pseudo-random number generator that reproduces, bit for
//! bit, the 48-bit linear congruential generator of `java.util.Random`.
//!
//! The whole library is one stateful value, [`JavaRandom`]: a 48-bit seed
//! register together with the derivation operations (integers, bounded
//! integers, longs, booleans, byte fills, and the integer numerators of the
//! float and double draws). Every operation advances the register through the
//! single congruence `seed' = (seed * 0x5DEECE66D + 0xB) mod 2^48` and is
//! specified exactly, so that a caller can rely on the same sequence the
//! reference algorithm produces for a given seed.

pub mod java_random;

pub use java_random::JavaRandom;
