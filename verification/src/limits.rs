//! Size ceilings shared by every layer of the engine.
use vstd::prelude::*;

verus! {

/// Key length ceiling (bytes).
pub const MAX_KLEN: usize = 4096;

/// Value length ceiling (bytes): 1 MiB.
pub const MAX_VLEN: usize = 1048576;

/// Largest accepted embedding dimensionality (floats).
pub const MAX_EMBEDDING_DIM: usize = 4096;

/// Default byte budget of one RAG context block.
pub const MAX_RAG_CONTEXT_BYTES: usize = 8192;

/// Default page size of a paginated prefix scan.
pub const DEFAULT_SCAN_PAGE_SIZE: usize = 100;

/// Orphan count above which the binary index is repacked on delete.
pub const DEFAULT_BQ_ORPHAN_THRESHOLD: usize = 64;

} // verus!
