//! Shared vocabulary of ElasticKV absorbed decode planning.

use vstd::prelude::*;

verus! {

/// How a key-latent basis must handle SCIAGENT's head-local RoPE.
#[derive(Debug, Clone, Copy, PartialEq, Eq, Structural)]
pub enum RotaryLatentRule {
    /// Full-rank identity coordinates: use the existing dense head-local RoPE.
    FullIdentity,
    /// The basis selects the first `rank / 2` complete native RoPE pairs; the
    /// latent kernel keeps the original `d_head` frequency denominator.
    NativePairPrefix { rank: usize, frequency_denominator: usize },
    /// General basis: a backend must apply the basis-projected position
    /// operator rather than ordinary latent-width RoPE.
    ProjectedOperator,
}

/// Invalid topology, basis, or source-weight shape during absorbed-plan creation.
#[derive(Debug, Clone, PartialEq)]
pub enum ElasticDecodePlanError {
    InvalidTopology(&'static str),
    InvalidRank { name: &'static str, rank: usize, d_head: usize },
    BasisLength { name: &'static str, expected: usize, actual: usize },
    NonFiniteBasis { name: &'static str, index: usize },
    WeightShape {
        name: &'static str,
        expected_rows: usize,
        expected_cols: usize,
        actual_rows: usize,
        actual_cols: usize,
    },
    LayerBasisCount { layers: usize, bases: usize },
    Overflow,
}

} // verus!
