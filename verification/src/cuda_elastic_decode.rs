//! Failure vocabulary of the ElasticKV CUDA decode path.

use vstd::prelude::*;

use crate::elastic_decode_plan::{ElasticDecodePlanError, RotaryLatentRule};

verus! {

/// Why an elastic decode model cannot run on the CUDA path.
#[derive(Debug)]
pub enum CudaElasticDecodeError {
    Plan(ElasticDecodePlanError),
    RuntimeUnavailable,
    UnsupportedRotaryRule { layer: usize, rule: RotaryLatentRule },
    NonUniformRank {
        layer: usize,
        key_rank: usize,
        value_rank: usize,
        expected_key_rank: usize,
        expected_value_rank: usize,
    },
}

} // verus!
