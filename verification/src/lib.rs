//! Verified core of the SciAgent ElasticTokenizer: canonical rank-priority BPE,
//! its optimized execution kernels, and the calibration machinery that picks a
//! kernel per piece length without ever changing the produced token ids.

pub mod bpe_semantics;
pub mod elastic_tokenizer;
pub mod elastic_id;
pub mod elastic_rule_table;
pub mod elastic_tiny;
pub mod elastic_linked;
pub mod elastic_indexed;
pub mod elastic_heap;
pub mod elastic_engine;
pub mod elastic_calibration;
pub mod elastic_autotune;
pub mod elastic_mla_plan;
pub mod byte_units;
pub mod canonical_bpe_train;
pub mod elastic_profile_store;
pub mod cuda_decode_execution_attestation;
pub mod elastic_decode_plan;
pub mod elastic_model_selection;
pub mod cuda_elastic_decode;
pub mod elastic_profile_fit;
pub mod elastic_text_tokenizer;
pub mod legacy_parallel_bpe;
pub mod cli_inputs;
pub mod decimal_text;
pub mod ingress_width;
pub mod rule_lookup_tables;
pub mod bpe_dispatch;
pub mod corpus_paths;
pub mod autotune_cases;
pub mod legacy_probe_tables;
