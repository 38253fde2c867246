//! The numbers and names that the whole application shares.

use vstd::prelude::*;

verus! {

/// The embedding model. Changing it invalidates every stored vector, so its name is written into
/// the metadata of an index and compared when the index is opened.
pub const EMBED_MODEL: &'static str = "BAAI/bge-base-en-v1.5";

pub const EMBED_DIM: usize = 768;

pub const RERANK_MODEL: &'static str = "jinaai/jina-reranker-v1-turbo-en";

pub const EMBED_BATCH: usize = 32;

/// The size that a chunk aims at, in words: enough to hold one clause together.
pub const CHUNK_WORDS: usize = 300;

/// The size that no chunk passes. The embedding model cuts its input off, so what stands behind
/// this many words would never reach the model.
pub const CHUNK_MAX_WORDS: usize = 375;

pub const CHUNK_OVERLAP_WORDS: usize = 60;

pub const DEFAULT_K: usize = 6;

pub const HYBRID_CANDIDATES: usize = 20;

/// The offset of reciprocal rank fusion.
pub const RRF_K: u32 = 60;

/// Raised when chunking changes enough that stored vectors should be rebuilt.
pub const CHUNKER_VERSION: &'static str = "3";

pub const NORMALIZATION: &'static str = "l2";

/// Chunks of 300 words, never more than 375, repeat 60 words, so that chunking makes progress;
/// vectors have 768 numbers and are made 32 at a time; each way of searching nominates 20
/// candidates, ranks are shifted by 60, and six passages are shown.
pub proof fn sizes_fit_together()
    ensures
        CHUNK_WORDS == 300,
        CHUNK_MAX_WORDS == 375,
        CHUNK_OVERLAP_WORDS == 60,
        CHUNK_OVERLAP_WORDS < CHUNK_WORDS <= CHUNK_MAX_WORDS,
        EMBED_DIM == 768,
        EMBED_BATCH == 32,
        HYBRID_CANDIDATES == 20,
        RRF_K == 60,
        DEFAULT_K == 6,
        DEFAULT_K <= HYBRID_CANDIDATES,
{
}

} // verus!
