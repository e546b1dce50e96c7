//! Polynomial arithmetic kernel for a Kyber-style lattice scheme:
//! modular reduction over the prime Q = 3329, an incomplete number-theoretic
//! transform on the ring Z_Q[x]/(x^256 + 1), pointwise multiplication in the
//! transformed domain, and the lossless / lossy byte codecs for ring elements.

pub mod field;
pub mod laws;
pub mod ntt;
pub mod params;
pub mod polynomial;
