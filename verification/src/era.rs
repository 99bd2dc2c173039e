//! Model-era awareness: the cost estimate of an embedding-model migration,
//! from the measured per-document constants and the real record count.
use vstd::prelude::*;

verus! {

/// Companion-text read cost per document, ns.
pub const READ_NS_PER_DOC: u64 = 1_100;

/// Rewrite cost per document (median), ns.
pub const REWRITE_NS_PER_DOC: u64 = 72_000;

/// Amortized rebuild cost per document, ns.
pub const REBUILD_NS_PER_DOC: u64 = 12_900;

/// Cost estimate of the re-embed migration.
#[derive(Clone, Debug)]
pub struct EraEstimate {
    /// Embedding-declared documents (L4/L5) to re-embed.
    pub docs_to_reembed: usize,
    /// Bytes of preserved text to re-embed.
    pub text_bytes: usize,
    /// Estimated database-side time (read + rewrite + rebuild), ns.
    pub db_side_ns: u128,
    /// The formula used, so the caller can recompute or add model-side cost.
    pub formula: &'static str,
}

/// Applies the migration cost formula to the record count: `N × (read +
/// rewrite + rebuild)`; the model-side cost is the caller's.
pub fn estimate_era_migration(docs: usize, text_bytes: usize) -> (r: EraEstimate)
    ensures
        r.docs_to_reembed == docs,
        r.text_bytes == text_bytes,
        r.db_side_ns == docs * (READ_NS_PER_DOC + REWRITE_NS_PER_DOC + REBUILD_NS_PER_DOC),
        r.formula@ == "db = N*(1.1us read + 72us rewrite + 12.9us rebuild) = N*86us; model cost external"@,
{
    let n = docs as u128;
    assert(n * 1_100u128 <= 1_100u128 * 0x1_0000_0000_0000_0000u128) by (nonlinear_arith)
        requires
            n < 0x1_0000_0000_0000_0000u128,
    ;
    assert(n * 72_000u128 <= 72_000u128 * 0x1_0000_0000_0000_0000u128) by (nonlinear_arith)
        requires
            n < 0x1_0000_0000_0000_0000u128,
    ;
    assert(n * 12_900u128 <= 12_900u128 * 0x1_0000_0000_0000_0000u128) by (nonlinear_arith)
        requires
            n < 0x1_0000_0000_0000_0000u128,
    ;
    let db_side_ns = n * (READ_NS_PER_DOC as u128) + n * (REWRITE_NS_PER_DOC as u128) + n * (
    REBUILD_NS_PER_DOC as u128);
    assert(db_side_ns == docs * 86_000) by (nonlinear_arith)
        requires
            db_side_ns == n * 1_100 + n * 72_000 + n * 12_900,
            n == docs,
    ;
    EraEstimate {
        docs_to_reembed: docs,
        text_bytes,
        db_side_ns,
        formula: "db = N*(1.1us read + 72us rewrite + 12.9us rebuild) = N*86us; model cost external",
    }
}

} // verus!
