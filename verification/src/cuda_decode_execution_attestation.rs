//! Versioned semantic identity of the batch-one CUDA decode implementation.
//!
//! Each combination of FFN, down-projection and LM-head modes names exactly one
//! decode kernel contract. The identity is attested alongside the model, so a
//! change of mode always changes the attested kernel identity.

use vstd::prelude::*;

verus! {

/// Numeric contract of the latency-oriented batch-one CUDA decoder.
pub const CUDA_DECODE_NUMERIC_MODE_V1: &'static str = "bf16-fp32-accum-v1";

pub const KERNEL_FUSED_CUBLAS_FUSED: &'static str = "sciagent.cuda-decode.fused-gemv.cublas-down.fused-argmax-v1";

pub const KERNEL_FUSED_CUBLAS_FULL: &'static str = "sciagent.cuda-decode.fused-gemv.cublas-down.full-logits-v1";

pub const KERNEL_FUSED_TILED_FUSED: &'static str = "sciagent.cuda-decode.fused-gemv.tiled-down.fused-argmax-v1";

pub const KERNEL_FUSED_TILED_FULL: &'static str = "sciagent.cuda-decode.fused-gemv.tiled-down.full-logits-v1";

pub const KERNEL_CUBLAS_CUBLAS_FUSED: &'static str = "sciagent.cuda-decode.cublas-ffn.cublas-down.fused-argmax-v1";

pub const KERNEL_CUBLAS_CUBLAS_FULL: &'static str = "sciagent.cuda-decode.cublas-ffn.cublas-down.full-logits-v1";

pub const KERNEL_CUBLAS_TILED_FUSED: &'static str = "sciagent.cuda-decode.cublas-ffn.tiled-down.fused-argmax-v1";

pub const KERNEL_CUBLAS_TILED_FULL: &'static str = "sciagent.cuda-decode.cublas-ffn.tiled-down.full-logits-v1";

/// Mode of the feed-forward input projections.
#[derive(Clone, Copy, Debug, PartialEq, Eq, Structural)]
pub enum CudaDecodeFfnMode {
    FusedGemv,
    CublasLt,
}

/// How the FFN down projection runs.
#[derive(Clone, Copy, Debug, PartialEq, Eq, Structural)]
pub enum CudaDecodeDownMode {
    CublasLt,
    TiledGemv,
}

/// How the LM head produces the next token.
#[derive(Clone, Copy, Debug, PartialEq, Eq, Structural)]
pub enum CudaDecodeLmHeadMode {
    FusedArgmax,
    FullLogits,
}

/// The implementation modes of one decode configuration.
#[derive(Clone, Copy, Debug, PartialEq, Eq, Structural)]
pub struct CudaDecodeModes {
    pub ffn: CudaDecodeFfnMode,
    pub down: CudaDecodeDownMode,
    pub lm_head: CudaDecodeLmHeadMode,
}

impl Default for CudaDecodeModes {
    fn default() -> (modes: Self)
        ensures
            modes == (CudaDecodeModes {
                ffn: CudaDecodeFfnMode::FusedGemv,
                down: CudaDecodeDownMode::CublasLt,
                lm_head: CudaDecodeLmHeadMode::FusedArgmax,
            }),
    {
        CudaDecodeModes {
            ffn: CudaDecodeFfnMode::FusedGemv,
            down: CudaDecodeDownMode::CublasLt,
            lm_head: CudaDecodeLmHeadMode::FusedArgmax,
        }
    }
}

/// The semantic identity of each mode combination.
pub open spec fn spec_kernel_semantic_version(modes: CudaDecodeModes) -> &'static str {
    match (modes.ffn, modes.down, modes.lm_head) {
        (CudaDecodeFfnMode::FusedGemv, CudaDecodeDownMode::CublasLt, CudaDecodeLmHeadMode::FusedArgmax) => KERNEL_FUSED_CUBLAS_FUSED,
        (CudaDecodeFfnMode::FusedGemv, CudaDecodeDownMode::CublasLt, CudaDecodeLmHeadMode::FullLogits) => KERNEL_FUSED_CUBLAS_FULL,
        (CudaDecodeFfnMode::FusedGemv, CudaDecodeDownMode::TiledGemv, CudaDecodeLmHeadMode::FusedArgmax) => KERNEL_FUSED_TILED_FUSED,
        (CudaDecodeFfnMode::FusedGemv, CudaDecodeDownMode::TiledGemv, CudaDecodeLmHeadMode::FullLogits) => KERNEL_FUSED_TILED_FULL,
        (CudaDecodeFfnMode::CublasLt, CudaDecodeDownMode::CublasLt, CudaDecodeLmHeadMode::FusedArgmax) => KERNEL_CUBLAS_CUBLAS_FUSED,
        (CudaDecodeFfnMode::CublasLt, CudaDecodeDownMode::CublasLt, CudaDecodeLmHeadMode::FullLogits) => KERNEL_CUBLAS_CUBLAS_FULL,
        (CudaDecodeFfnMode::CublasLt, CudaDecodeDownMode::TiledGemv, CudaDecodeLmHeadMode::FusedArgmax) => KERNEL_CUBLAS_TILED_FUSED,
        (CudaDecodeFfnMode::CublasLt, CudaDecodeDownMode::TiledGemv, CudaDecodeLmHeadMode::FullLogits) => KERNEL_CUBLAS_TILED_FULL,
    }
}

/// Return the versioned semantic identity of the exact decode implementation modes.
pub fn cuda_decode_kernel_semantic_version(modes: CudaDecodeModes) -> (version: &'static str)
    ensures
        version == spec_kernel_semantic_version(modes),
{
    match (modes.ffn, modes.down, modes.lm_head) {
        (CudaDecodeFfnMode::FusedGemv, CudaDecodeDownMode::CublasLt, CudaDecodeLmHeadMode::FusedArgmax) => KERNEL_FUSED_CUBLAS_FUSED,
        (CudaDecodeFfnMode::FusedGemv, CudaDecodeDownMode::CublasLt, CudaDecodeLmHeadMode::FullLogits) => KERNEL_FUSED_CUBLAS_FULL,
        (CudaDecodeFfnMode::FusedGemv, CudaDecodeDownMode::TiledGemv, CudaDecodeLmHeadMode::FusedArgmax) => KERNEL_FUSED_TILED_FUSED,
        (CudaDecodeFfnMode::FusedGemv, CudaDecodeDownMode::TiledGemv, CudaDecodeLmHeadMode::FullLogits) => KERNEL_FUSED_TILED_FULL,
        (CudaDecodeFfnMode::CublasLt, CudaDecodeDownMode::CublasLt, CudaDecodeLmHeadMode::FusedArgmax) => KERNEL_CUBLAS_CUBLAS_FUSED,
        (CudaDecodeFfnMode::CublasLt, CudaDecodeDownMode::CublasLt, CudaDecodeLmHeadMode::FullLogits) => KERNEL_CUBLAS_CUBLAS_FULL,
        (CudaDecodeFfnMode::CublasLt, CudaDecodeDownMode::TiledGemv, CudaDecodeLmHeadMode::FusedArgmax) => KERNEL_CUBLAS_TILED_FUSED,
        (CudaDecodeFfnMode::CublasLt, CudaDecodeDownMode::TiledGemv, CudaDecodeLmHeadMode::FullLogits) => KERNEL_CUBLAS_TILED_FULL,
    }
}

/// Distinct mode combinations have distinct semantic identities, so changing
/// a decode mode always changes the attested kernel identity.
pub proof fn lemma_semantic_version_injective(a: CudaDecodeModes, b: CudaDecodeModes)
    requires
        spec_kernel_semantic_version(a)@ == spec_kernel_semantic_version(b)@,
    ensures
        a == b,
{
    reveal_strlit("sciagent.cuda-decode.fused-gemv.cublas-down.fused-argmax-v1");
    reveal_strlit("sciagent.cuda-decode.fused-gemv.cublas-down.full-logits-v1");
    reveal_strlit("sciagent.cuda-decode.fused-gemv.tiled-down.fused-argmax-v1");
    reveal_strlit("sciagent.cuda-decode.fused-gemv.tiled-down.full-logits-v1");
    reveal_strlit("sciagent.cuda-decode.cublas-ffn.cublas-down.fused-argmax-v1");
    reveal_strlit("sciagent.cuda-decode.cublas-ffn.cublas-down.full-logits-v1");
    reveal_strlit("sciagent.cuda-decode.cublas-ffn.tiled-down.fused-argmax-v1");
    reveal_strlit("sciagent.cuda-decode.cublas-ffn.tiled-down.full-logits-v1");
    let va = spec_kernel_semantic_version(a)@;
    let vb = spec_kernel_semantic_version(b)@;
    assert(va[21] == vb[21]);
    assert(va[32] == vb[32]);
    assert(va.len() == vb.len());
}

} // verus!
