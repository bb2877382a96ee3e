//! Arithmetization of the Keccak-f[1600] permutation over bounded-digit
//! lane encodings, with the witness computations of each gate and the
//! checks that its constraints hold.
pub mod arith;
pub mod circuit;
pub mod common;
pub mod correctness;
pub mod encoding;
pub mod keccak;
pub mod mixing;
pub mod pi;
pub mod rho_checks;
