//! Anti-entropy over a mesh of version agents: every node announces its
//! full clock to its neighbours each round and applies what it receives.
//! These cases check the version side of replication (known versions and
//! preserved conflicts); the documents themselves live in the database
//! layer, which is not part of this library.

use neural_sgdb::crdt::{CrdtMemorySync, MemoryVersion, MergeVerdict};

struct Mesh {
    ids: Vec<u8>,
    nodes: Vec<CrdtMemorySync>,
    edges: Vec<Vec<bool>>,
}

impl Mesh {
    fn new(ids: &[u8]) -> Self {
        let n = ids.len();
        Mesh {
            ids: ids.to_vec(),
            nodes: ids.iter().map(|&id| CrdtMemorySync::new(id)).collect(),
            edges: vec![vec![false; n]; n],
        }
    }

    fn connect(&mut self, i: usize, j: usize) {
        self.edges[i][j] = true;
        self.edges[j][i] = true;
    }

    fn remember(&mut self, i: usize) {
        self.nodes[i].record_change();
    }

    /// One round: every node announces its clock; each neighbour applies
    /// every announced version (twice when `dup`).
    fn round(&mut self, dup: bool) {
        let n = self.nodes.len();
        let outboxes: Vec<Vec<(u8, u64)>> = (0..n).map(|i| self.nodes[i].announce()).collect();
        for j in 0..n {
            for (i, outbox) in outboxes.iter().enumerate() {
                if i == j || !self.edges[i][j] {
                    continue;
                }
                for &(node, v) in outbox {
                    if dup {
                        let _ = self.nodes[j].apply_remote_version(node, v);
                    }
                    let _ = self.nodes[j].apply_remote_version(node, v);
                }
            }
        }
    }

    fn converge(&mut self, rounds: usize) {
        for _ in 0..rounds {
            self.round(false);
        }
    }

    fn snapshot(&self) -> Vec<(Vec<(u8, u64)>, Vec<MemoryVersion>)> {
        self.nodes.iter().map(|c| (c.node_versions.clone(), c.conflicts.clone())).collect()
    }
}

#[test]
fn three_node_triangle_convergence() {
    let mut m = Mesh::new(&[1, 2, 3]);
    m.connect(0, 1);
    m.connect(1, 2);
    m.connect(0, 2);
    m.remember(0);
    m.remember(1);
    m.remember(2);
    m.converge(8);
    for i in 0..3 {
        let mut vs = m.nodes[i].node_versions.clone();
        vs.sort();
        let expected: Vec<(u8, u64)> = (0..3).filter(|j| *j != i).map(|j| (m.ids[j], 1)).collect();
        assert_eq!(vs, expected, "node {i} has incomplete versions");
    }
    // fixed point: more rounds change nothing
    let before = m.snapshot();
    m.converge(4);
    assert_eq!(m.snapshot(), before);
}

#[test]
fn partition_rejoin_preserves_concurrent_writes() {
    let mut m = Mesh::new(&[1, 2, 3]);
    m.connect(0, 2);
    m.connect(1, 2);
    m.remember(0);
    m.remember(1);
    m.converge(4);
    assert!(
        m.nodes[2].conflicts.iter().any(|c| c.node_id == 2),
        "C should hold the conflict with B: {:?}",
        m.nodes[2].conflicts
    );
    m.connect(0, 1);
    m.converge(6);
    assert!(m.nodes[0].conflicts.iter().any(|c| c.node_id == 2));
    assert!(m.nodes[1].conflicts.iter().any(|c| c.node_id == 1));
    assert!(m.nodes[2].conflicts.iter().any(|c| c.node_id == 2));
    assert_eq!(m.nodes[0].node_versions, vec![(2, 1)]);
    assert_eq!(m.nodes[1].node_versions, vec![(1, 1)]);
    let before = m.snapshot();
    m.converge(4);
    assert_eq!(m.snapshot(), before, "after convergence nothing changes");
}

#[test]
fn duplicate_and_stale_delivery_is_idempotent() {
    let mut m = Mesh::new(&[1, 2]);
    m.connect(0, 1);
    m.remember(0);
    m.round(true);
    assert_eq!(m.nodes[1].node_versions, vec![(1, 1)]);
    m.remember(0);
    m.round(false);
    assert_eq!(m.nodes[1].node_versions, vec![(1, 2)]);
    assert_eq!(m.nodes[1].apply_remote_version(1, 1), MergeVerdict::Stale);
    assert_eq!(m.nodes[1].node_versions, vec![(1, 2)]);
}

#[test]
fn fresh_node_catches_up_after_restart() {
    let mut m = Mesh::new(&[1, 2]);
    m.connect(0, 1);
    m.remember(0);
    m.remember(1);
    m.converge(4);
    m.ids.push(3);
    m.nodes.push(CrdtMemorySync::new(3));
    let n = m.nodes.len();
    m.edges.push(vec![false; n]);
    for e in &mut m.edges {
        e.resize(n, false);
    }
    m.connect(2, 0);
    m.connect(2, 1);
    m.converge(8);
    assert_eq!(m.nodes[2].node_versions, vec![(1, 1), (2, 1)]);
    assert_eq!(m.nodes[0].node_versions, vec![(2, 1)]);
    assert_eq!(m.nodes[1].node_versions, vec![(1, 1)]);
}

#[test]
fn versions_relay_through_intermediate_node() {
    let mut m = Mesh::new(&[1, 2, 3]);
    m.connect(0, 2);
    m.connect(1, 2);
    m.remember(0);
    m.converge(3);
    assert_eq!(m.nodes[2].node_versions, vec![(1, 1)]);
    assert_eq!(m.nodes[1].node_versions, vec![(1, 1)]);
    m.remember(1);
    m.converge(3);
    assert!(m.nodes[0].node_versions.contains(&(2, 1)), "A reached B's version through C");
    let before = m.snapshot();
    m.converge(3);
    assert_eq!(m.snapshot(), before);
}

#[test]
fn directed_pull_fetches_full_version_range() {
    let mut m = Mesh::new(&[1, 2]);
    m.connect(0, 1);
    m.remember(0);
    m.remember(0);
    m.remember(0);
    m.round(false);
    assert_eq!(m.nodes[1].node_versions, vec![(1, 3)]);
    let before = m.snapshot();
    m.round(false);
    assert_eq!(m.snapshot(), before);
}
