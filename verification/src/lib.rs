//! Hidden Markov models with Viterbi decoding, over fixed-point numbers.
//!
//! Given the probabilities with which a system starts in each of its hidden
//! states, moves between them, and shows each observable label, the library
//! finds the single most probable sequence of states behind a sequence of
//! observed labels.
//!
//! * [`fixed`] holds the numbers: signed fixed-point values with 32
//!   fractional bits, their saturating sum and their negated base-two
//!   logarithm.
//! * [`matrices`] holds [`matrices::Vector`] and [`matrices::Matrix`] with
//!   the elementwise and column-wise operations of the decoder.
//! * [`models`] holds [`models::HiddenMarkov`]: the validating constructor,
//!   which turns probabilities into costs, and the decoder.
//!
//! A probability `p` is handed over as the integer nearest to `p * 2^32` and
//! kept as the cost `-log2(p)`, so that products of probabilities become sums
//! of costs and the most probable path becomes the cheapest.

pub mod fixed;
pub mod matrices;
pub mod models;
