//! Vocabulary of conflict arbitration: the verdicts and the kinds of evidence
//! a policy weighs. Policies themselves belong to the cognitive layer.
use vstd::prelude::*;

verus! {

/// How a conflict should be resolved.
#[derive(Clone, Debug, PartialEq, Eq, Structural)]
pub enum ArbitrationAction {
    /// One candidate is preferred as the winner.
    Prefer,
    /// The indicated candidate is invalidated; the other stays active.
    Invalidate,
    /// Merge: a new version with both as parents, both superseded.
    Merge,
    /// No automatic decision: escalate.
    Escalate,
}

/// Kind of evidence weighed by a policy.
#[derive(Clone, Debug, PartialEq, Eq, Structural)]
pub enum EvidenceSource {
    Importance,
    Confidence,
    Recency,
    Age,
    ParentCount,
    ConflictCount,
    Layer,
}

} // verus!
