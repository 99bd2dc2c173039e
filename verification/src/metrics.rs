//! Structured runtime counters: one named counter per subsystem, read as a
//! stable (name, value) snapshot.
use vstd::prelude::*;
use crate::text::same_text;

verus! {

/// Runtime counters of the database.
#[derive(Clone, Debug, Default, PartialEq, Eq)]
pub struct Metrics {
    /// Memory writes.
    pub memory_writes: u64,
    /// Recalls served.
    pub recalls: u64,
    /// Lifecycle transitions applied.
    pub lifecycle_transitions: u64,
    /// Conflicts detected.
    pub conflicts_detected: u64,
    /// Conflicts resolved.
    pub conflicts_resolved: u64,
    /// Replication packets sent.
    pub replication_sent: u64,
    /// Replication packets received.
    pub replication_received: u64,
    /// Replication packets rejected.
    pub replication_rejected: u64,
    /// Stale replication packets.
    pub replication_stale: u64,
    /// Duplicate replication packets.
    pub replication_duplicate: u64,
    /// Clock changes.
    pub clock_changes: u64,
    /// Storage recoveries.
    pub storage_recoveries: u64,
    /// Index rebuilds.
    pub index_rebuilds: u64,
    /// Wall time of the last index rebuild on open, in ms (0 where no clock exists).
    pub open_rebuild_ms_last: u64,
    /// Worst index rebuild on open seen by this instance, in ms.
    pub open_rebuild_ms_max: u64,
    /// Opens made by this process.
    pub opens: u64,
}

/// Number of counters.
pub const METRIC_COUNT: usize = 16;

/// Name of counter `i` in snapshot order.
pub open spec fn metric_name(i: int) -> Seq<char> {
    if i == 0 {
        seq!['m', 'e', 'm', 'o', 'r', 'y', '_', 'w', 'r', 'i', 't', 'e', 's']
    } else if i == 1 {
        seq!['r', 'e', 'c', 'a', 'l', 'l', 's']
    } else if i == 2 {
        seq!['l', 'i', 'f', 'e', 'c', 'y', 'c', 'l', 'e', '_', 't', 'r', 'a', 'n', 's', 'i', 't', 'i', 'o', 'n', 's']
    } else if i == 3 {
        seq!['c', 'o', 'n', 'f', 'l', 'i', 'c', 't', 's', '_', 'd', 'e', 't', 'e', 'c', 't', 'e', 'd']
    } else if i == 4 {
        seq!['c', 'o', 'n', 'f', 'l', 'i', 'c', 't', 's', '_', 'r', 'e', 's', 'o', 'l', 'v', 'e', 'd']
    } else if i == 5 {
        seq!['r', 'e', 'p', 'l', 'i', 'c', 'a', 't', 'i', 'o', 'n', '_', 's', 'e', 'n', 't']
    } else if i == 6 {
        seq!['r', 'e', 'p', 'l', 'i', 'c', 'a', 't', 'i', 'o', 'n', '_', 'r', 'e', 'c', 'e', 'i', 'v', 'e', 'd']
    } else if i == 7 {
        seq!['r', 'e', 'p', 'l', 'i', 'c', 'a', 't', 'i', 'o', 'n', '_', 'r', 'e', 'j', 'e', 'c', 't', 'e', 'd']
    } else if i == 8 {
        seq!['r', 'e', 'p', 'l', 'i', 'c', 'a', 't', 'i', 'o', 'n', '_', 's', 't', 'a', 'l', 'e']
    } else if i == 9 {
        seq!['r', 'e', 'p', 'l', 'i', 'c', 'a', 't', 'i', 'o', 'n', '_', 'd', 'u', 'p', 'l', 'i', 'c', 'a', 't', 'e']
    } else if i == 10 {
        seq!['c', 'l', 'o', 'c', 'k', '_', 'c', 'h', 'a', 'n', 'g', 'e', 's']
    } else if i == 11 {
        seq!['s', 't', 'o', 'r', 'a', 'g', 'e', '_', 'r', 'e', 'c', 'o', 'v', 'e', 'r', 'i', 'e', 's']
    } else if i == 12 {
        seq!['i', 'n', 'd', 'e', 'x', '_', 'r', 'e', 'b', 'u', 'i', 'l', 'd', 's']
    } else if i == 13 {
        seq!['o', 'p', 'e', 'n', '_', 'r', 'e', 'b', 'u', 'i', 'l', 'd', '_', 'm', 's', '_', 'l', 'a', 's', 't']
    } else if i == 14 {
        seq!['o', 'p', 'e', 'n', '_', 'r', 'e', 'b', 'u', 'i', 'l', 'd', '_', 'm', 's', '_', 'm', 'a', 'x']
    } else if i == 15 {
        seq!['o', 'p', 'e', 'n', 's']
    } else {
        Seq::empty()
    }
}

/// Value of counter `i` in snapshot order.
pub open spec fn metric_value(m: Metrics, i: int) -> u64 {
    if i == 0 {
        m.memory_writes
    } else if i == 1 {
        m.recalls
    } else if i == 2 {
        m.lifecycle_transitions
    } else if i == 3 {
        m.conflicts_detected
    } else if i == 4 {
        m.conflicts_resolved
    } else if i == 5 {
        m.replication_sent
    } else if i == 6 {
        m.replication_received
    } else if i == 7 {
        m.replication_rejected
    } else if i == 8 {
        m.replication_stale
    } else if i == 9 {
        m.replication_duplicate
    } else if i == 10 {
        m.clock_changes
    } else if i == 11 {
        m.storage_recoveries
    } else if i == 12 {
        m.index_rebuilds
    } else if i == 13 {
        m.open_rebuild_ms_last
    } else if i == 14 {
        m.open_rebuild_ms_max
    } else if i == 15 {
        m.opens
    } else {
        0
    }
}

impl Metrics {
    /// Snapshot of every counter as (name, value), in a stable order.
    pub fn snapshot(&self) -> (r: Vec<(&'static str, u64)>)
        ensures
            r@.len() == METRIC_COUNT,
            forall|i: int| 0 <= i < METRIC_COUNT ==> (#[trigger] r@[i]).0@ == metric_name(i) && r@[i].1
                == metric_value(*self, i),
    {
        proof {
            reveal_strlit("memory_writes");
            reveal_strlit("recalls");
            reveal_strlit("lifecycle_transitions");
            reveal_strlit("conflicts_detected");
            reveal_strlit("conflicts_resolved");
            reveal_strlit("replication_sent");
            reveal_strlit("replication_received");
            reveal_strlit("replication_rejected");
            reveal_strlit("replication_stale");
            reveal_strlit("replication_duplicate");
            reveal_strlit("clock_changes");
            reveal_strlit("storage_recoveries");
            reveal_strlit("index_rebuilds");
            reveal_strlit("open_rebuild_ms_last");
            reveal_strlit("open_rebuild_ms_max");
            reveal_strlit("opens");
        }
        let r = vec![
            ("memory_writes", self.memory_writes),
            ("recalls", self.recalls),
            ("lifecycle_transitions", self.lifecycle_transitions),
            ("conflicts_detected", self.conflicts_detected),
            ("conflicts_resolved", self.conflicts_resolved),
            ("replication_sent", self.replication_sent),
            ("replication_received", self.replication_received),
            ("replication_rejected", self.replication_rejected),
            ("replication_stale", self.replication_stale),
            ("replication_duplicate", self.replication_duplicate),
            ("clock_changes", self.clock_changes),
            ("storage_recoveries", self.storage_recoveries),
            ("index_rebuilds", self.index_rebuilds),
            ("open_rebuild_ms_last", self.open_rebuild_ms_last),
            ("open_rebuild_ms_max", self.open_rebuild_ms_max),
            ("opens", self.opens),
        ];
        r
    }

    /// Value of the named counter; 0 for an unknown name.
    pub fn value(&self, name: &str) -> (r: u64)
        ensures
            (exists|i: int| 0 <= i < METRIC_COUNT && metric_name(i) == name@) ==> (exists|i: int|
                0 <= i < METRIC_COUNT && metric_name(i) == name@ && r == metric_value(*self, i)),
            (forall|i: int| 0 <= i < METRIC_COUNT ==> metric_name(i) != name@) ==> r == 0,
    {
        let snap = self.snapshot();
        let mut i: usize = 0;
        while i < snap.len()
            invariant
                snap@.len() == METRIC_COUNT,
                forall|j: int| 0 <= j < METRIC_COUNT ==> (#[trigger] snap@[j]).0@ == metric_name(j) && snap@[j].1
                    == metric_value(*self, j),
                0 <= i <= METRIC_COUNT,
                forall|j: int| 0 <= j < i ==> metric_name(j) != name@,
            decreases METRIC_COUNT - i,
        {
            let (n, v) = snap[i];
            if same_text(n, name) {
                assert(snap@[i as int].0@ == metric_name(i as int));
                return v;
            }
            assert(snap@[i as int].0@ == metric_name(i as int));
            i += 1;
        }
        0
    }
}

} // verus!
