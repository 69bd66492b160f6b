//! Solver for linear congruences `A*x ≡ B (mod C)` over signed 128-bit
//! integers, built on the extended Euclidean algorithm: a forward pass
//! generates the Euclidean remainder sequence, a backward pass folds it
//! into a Bézout identity `gcd = n*x + m*q`, and a resolver turns that
//! identity into a residue-class solution or a proof of unsolvability.

pub mod arith;
pub mod bezout;
pub mod congruence;
pub mod sequence;
