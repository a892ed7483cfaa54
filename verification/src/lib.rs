//! Decoding engine for code-based cryptanalysis: information-set-decoding
//! searches (Prange, Stern, Lee-Brickell, Ball-Collision, BJMM, MMT) over
//! GF(2), and Patterson's algebraic decoder for binary Goppa codes built on
//! GF(2^m) polynomial arithmetic.
//!
//! Every decoder is a pure function from an observation, a parity-check
//! matrix and a target weight to an optional error vector; a returned
//! vector is guaranteed to carry the target syndrome and to respect the
//! weight bound.  The linearity of the syndrome map, which justifies the
//! meet-in-the-middle splitting, is proved once in `matrix`.

// Ground layers: bit vectors, field arithmetic, polynomials, matrices.
pub mod bits;
pub mod field;
pub mod polynomial_utils;
pub mod matrix;

// Shared machinery: randomness edge, candidate lists, combination walks.
pub mod sampling;
pub mod candidates;
pub mod combos;
pub mod types;
pub mod utils;

// The decoders.
pub mod prange;
pub mod stern;
pub mod lee_brickell;
pub mod ball_collision;
pub mod bjmm;
pub mod mmt;
pub mod patterson;

// Code construction and experiment orchestration.
pub mod goppa;
pub mod code_generator;
pub mod algorithm_runner;
pub mod config;
