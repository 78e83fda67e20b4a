//! Nucleotide-composition statistics and diversity metrics for quasispecies
//! analysis, computed over aligned sequencing reads.
//!
//! Every fractional quantity (coverage, probability, efficiency, alpha and
//! beta diversity) is a *score*: an unsigned fixed-point number with 32
//! fractional bits, so that the score `4294967296` stands for `1.0`.
//!
//! A score is rounded down to a multiple of two to the power -32, with
//! one exception: a coverage or a probability that is not zero is never the
//! score 0, but at least the least score there is. So the score 0 always
//! means that nothing was counted, and the score of `1.0` that nothing else
//! was. The logarithm behind the efficiency is less than two units of two
//! to the power -32 below the real one and never above it. The efficiency
//! is 0 exactly where one nucleotide holds every count; it is cut off at
//! `1.0`, which a column within rounding of the uniform one can reach.

pub mod array;
pub mod bam;
pub mod builder;
pub mod error;
pub mod matrices;
pub mod prelude;
pub mod score;
