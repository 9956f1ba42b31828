//! Probable-prime generation from deterministic pseudorandom generators.
//!
//! The crate builds large probable primes of a requested bit length out of
//! three verified pieces: arbitrary-precision naturals whose arithmetic is
//! delegated to the `num` crate behind exactly specified trusted wrappers
//! (`big`); a boundary-rejection linear congruential generator and the
//! Blum-Blum-Shub bit-stream generator (`random`); and the Miller-Rabin and
//! Fermat probabilistic primality tests together with the search loops that
//! shape generator output into odd candidates of an exact bit length
//! (`prime`).

pub mod big;
pub mod prime;
pub mod random;
