//! Outcome of one lifecycle tick: which memories moved, and where.
use vstd::prelude::*;
use crate::memory_doc::MemoryState;

verus! {

/// Structured result of a lifecycle tick.
#[derive(Clone, Debug, Default, PartialEq, Eq)]
pub struct LifecycleReport {
    pub tick: u64,
    /// Storage keys committed from L1 to L2.
    pub committed: Vec<String>,
    /// Storage keys promoted from L2 to L3.
    pub promoted: Vec<String>,
    /// Storage keys semanticized from L3 to L4.
    pub semanticized: Vec<String>,
    /// Storage keys archived.
    pub archived: Vec<String>,
    /// Storage keys decayed.
    pub decayed: Vec<String>,
}


/// Age of a memory at `now`: ticks since its creation (0 when its creation
/// tick is unknown or later than `now`).
pub open spec fn age_at(created_tick: Option<u64>, now: u64) -> int {
    match created_tick {
        Some(c) => if now >= c { now - c } else { 0 },
        None => now as int,
    }
}

/// Whether a working memory is committed to a short episode on this tick:
/// it is still active and at least `after` ticks old (creation tick 0 when
/// unknown, so its age is `now`).
pub fn commit_due(state: MemoryState, created_tick: Option<u64>, now: u64, after: u64) -> (r: bool)
    ensures
        r == (state == MemoryState::Active && age_at(created_tick, now) >= after),
{
    let created = match created_tick {
        Some(c) => c,
        None => 0,
    };
    let age = now.saturating_sub(created);
    match state {
        MemoryState::Active => age >= after,
        _ => false,
    }
}

/// Whether a superseded memory is archived on this tick: archiving is on
/// (`after` is set), the memory is superseded, and it is at least `after`
/// ticks old (age 0 when its creation tick is unknown).
pub fn archive_due(state: MemoryState, created_tick: Option<u64>, now: u64, after: Option<u64>) -> (r: bool)
    ensures
        r == (after matches Some(a) && state == MemoryState::Superseded && (match created_tick {
            Some(c) => age_at(Some(c), now),
            None => 0,
        }) >= a),
{
    let a = match after {
        Some(a) => a,
        None => return false,
    };
    let age = match created_tick {
        Some(c) => now.saturating_sub(c),
        None => 0,
    };
    match state {
        MemoryState::Superseded => age >= a,
        _ => false,
    }
}

} // verus!
