//! Dynamic vector clock: an eight-node fast path in fixed arrays plus a
//! bounded overflow registry for further nodes.
//!
//! Node id `0xFF` marks an empty fixed slot, so node 255 only ever lives in
//! the overflow registry (once the fixed slots are full).
use vstd::prelude::*;
use vstd::bytes::*;
use vstd::slice::*;
use crate::wire::{push_u64, rd_u64, lemma_le_bytes_roundtrip};

verus! {

/// Bound of the overflow registry (the u8 node space minus the fixed slots).
pub const MAX_OVERFLOW_NODES: usize = 248;

/// Marker of an unused fixed slot.
pub const EMPTY_SLOT: u8 = 0xFF;

/// Vector clock: pairs (node, counter) in eight fixed slots plus overflow.
#[derive(Clone, Debug, Default)]
pub struct VectorClock {
    pub nodes: [u8; 8],
    pub counts: [u64; 8],
    pub overflow: Vec<(u8, u64)>,
}

/// First fixed slot at or after `i` that holds `n` (8 when none).
pub open spec fn first_fixed(nodes: Seq<u8>, n: u8, i: int) -> int
    decreases 8 - i,
{
    if i >= 8 {
        8
    } else if nodes[i] == n {
        i
    } else {
        first_fixed(nodes, n, i + 1)
    }
}

/// First overflow entry at or after `j` whose node is `n` (len when none).
pub open spec fn first_over(ov: Seq<(u8, u64)>, n: u8, j: int) -> int
    decreases ov.len() - j,
{
    if j >= ov.len() {
        ov.len() as int
    } else if ov[j].0 == n {
        j
    } else {
        first_over(ov, n, j + 1)
    }
}

/// Non-empty fixed slots among the first `i`, in slot order.
pub open spec fn fixed_entries(nodes: Seq<u8>, counts: Seq<u64>, i: int) -> Seq<(u8, u64)>
    decreases i,
{
    if i <= 0 {
        Seq::empty()
    } else {
        let p = fixed_entries(nodes, counts, i - 1);
        if nodes[i - 1] != EMPTY_SLOT {
            p.push((nodes[i - 1], counts[i - 1]))
        } else {
            p
        }
    }
}

pub proof fn lemma_first_fixed(nodes: Seq<u8>, n: u8, i: int)
    requires
        0 <= i <= 8,
        nodes.len() == 8,
    ensures
        i <= first_fixed(nodes, n, i) <= 8,
        first_fixed(nodes, n, i) < 8 ==> nodes[first_fixed(nodes, n, i)] == n,
        forall|k: int| i <= k < first_fixed(nodes, n, i) ==> nodes[k] != n,
    decreases 8 - i,
{
    if i < 8 && nodes[i] != n {
        lemma_first_fixed(nodes, n, i + 1);
    }
}

pub proof fn lemma_first_over(ov: Seq<(u8, u64)>, n: u8, j: int)
    requires
        0 <= j <= ov.len(),
    ensures
        j <= first_over(ov, n, j) <= ov.len(),
        first_over(ov, n, j) < ov.len() ==> ov[first_over(ov, n, j)].0 == n,
        forall|k: int| j <= k < first_over(ov, n, j) ==> ov[k].0 != n,
    decreases ov.len() - j,
{
    if j < ov.len() && ov[j].0 != n {
        lemma_first_over(ov, n, j + 1);
    }
}

/// `first_fixed` from 0 is the unique slot holding `n` past a clean prefix.
pub proof fn lemma_first_fixed_skip(nodes: Seq<u8>, n: u8, i: int)
    requires
        0 <= i <= 8,
        nodes.len() == 8,
        forall|k: int| 0 <= k < i ==> nodes[k] != n,
    ensures
        first_fixed(nodes, n, 0) == first_fixed(nodes, n, i),
    decreases i,
{
    if i > 0 {
        lemma_first_fixed_skip(nodes, n, i - 1);
        assert(first_fixed(nodes, n, i - 1) == first_fixed(nodes, n, i));
    }
}

pub proof fn lemma_first_over_skip(ov: Seq<(u8, u64)>, n: u8, j: int)
    requires
        0 <= j <= ov.len(),
        forall|k: int| 0 <= k < j ==> ov[k].0 != n,
    ensures
        first_over(ov, n, 0) == first_over(ov, n, j),
    decreases j,
{
    if j > 0 {
        lemma_first_over_skip(ov, n, j - 1);
        assert(first_over(ov, n, j - 1) == first_over(ov, n, j));
    }
}

/// The slot index characterisation of `first_fixed` from 0.
pub proof fn lemma_first_fixed_is(nodes: Seq<u8>, n: u8, i: int)
    requires
        nodes.len() == 8,
        0 <= i <= 8,
        forall|k: int| 0 <= k < i ==> nodes[k] != n,
        i < 8 ==> nodes[i] == n,
    ensures
        first_fixed(nodes, n, 0) == i,
{
    lemma_first_fixed_skip(nodes, n, i);
}

pub proof fn lemma_first_over_is(ov: Seq<(u8, u64)>, n: u8, j: int)
    requires
        0 <= j <= ov.len(),
        forall|k: int| 0 <= k < j ==> ov[k].0 != n,
        j < ov.len() ==> ov[j].0 == n,
    ensures
        first_over(ov, n, 0) == j,
{
    lemma_first_over_skip(ov, n, j);
}


/// A byte sequence without repetitions has at most 256 elements.
pub proof fn lemma_u8_nodup_len(s: Seq<u8>)
    requires
        s.no_duplicates(),
    ensures
        s.len() <= 256,
{
    let f = |x: u8| x as int;
    assert(vstd::relations::injective(f));
    s.lemma_no_duplicates_injective(f);
    let si = s.map_values(f);
    si.unique_seq_to_set();
    vstd::set_lib::lemma_int_range(0, 256);
    assert forall|x: int| si.to_set().contains(x) implies vstd::set_lib::set_int_range(
        0,
        256,
    ).contains(x) by {
        let k = choose|k: int| 0 <= k < si.len() && si[k] == x;
        assert(si[k] == s[k] as int);
    }
    vstd::set_lib::lemma_len_subset(si.to_set(), vstd::set_lib::set_int_range(0, 256));
}

/// Properties of the first-slot searches from 0, for every node.
pub proof fn lemma_slots(vc: VectorClock)
    requires
        vc.nodes@.len() == 8,
    ensures
        forall|m: u8|
            #![trigger first_fixed(vc.nodes@, m, 0)]
            0 <= first_fixed(vc.nodes@, m, 0) <= 8 && (first_fixed(vc.nodes@, m, 0) < 8
                ==> vc.nodes@[first_fixed(vc.nodes@, m, 0)] == m) && (forall|k: int|
                0 <= k < first_fixed(vc.nodes@, m, 0) ==> vc.nodes@[k] != m),
        forall|m: u8|
            #![trigger first_over(vc.overflow@, m, 0)]
            0 <= first_over(vc.overflow@, m, 0) <= vc.overflow@.len() && (first_over(
                vc.overflow@,
                m,
                0,
            ) < vc.overflow@.len() ==> vc.overflow@[first_over(vc.overflow@, m, 0)].0 == m)
                && (forall|k: int|
                0 <= k < first_over(vc.overflow@, m, 0) ==> vc.overflow@[k].0 != m),
{
    assert forall|m: u8| #![trigger first_fixed(vc.nodes@, m, 0)] 0 <= first_fixed(vc.nodes@, m, 0) <= 8 && (first_fixed(vc.nodes@, m, 0) < 8
                ==> vc.nodes@[first_fixed(vc.nodes@, m, 0)] == m) && (forall|k: int|
                0 <= k < first_fixed(vc.nodes@, m, 0) ==> vc.nodes@[k] != m) by {
        lemma_first_fixed(vc.nodes@, m, 0);
    }
    assert forall|m: u8| #![trigger first_over(vc.overflow@, m, 0)] 0 <= first_over(vc.overflow@, m, 0) <= vc.overflow@.len() && (first_over(
                vc.overflow@,
                m,
                0,
            ) < vc.overflow@.len() ==> vc.overflow@[first_over(vc.overflow@, m, 0)].0 == m)
                && (forall|k: int|
                0 <= k < first_over(vc.overflow@, m, 0) ==> vc.overflow@[k].0 != m) by {
        lemma_first_over(vc.overflow@, m, 0);
    }
}

/// Under well-formedness and an admitted node, `set_counter` keeps the clock
/// well formed and changes the counter of that node only.
pub proof fn lemma_set_counter_effect(old: VectorClock, new: VectorClock, n: u8, c: u64)
    requires
        old.wf(),
        old.admits(n),
        VectorClock::set_counter_post(old, new, n, c),
    ensures
        new.wf(),
        forall|m: u8| #[trigger] new.counter(m) == if m == n { c } else { old.counter(m) },
{
    lemma_slots(old);
    lemma_slots(new);
    let i = first_fixed(old.nodes@, n, 0);
    let f = first_fixed(old.nodes@, EMPTY_SLOT, 0);
    let j = first_over(old.overflow@, n, 0);
    if i < 8 {
        assert(new.wf());
        assert forall|m: u8| #[trigger] new.counter(m) == if m == n { c } else { old.counter(m) } by {
            assert(first_fixed(new.nodes@, m, 0) == first_fixed(old.nodes@, m, 0));
        }
    } else if f < 8 {
        assert(old.overflow@.len() == 0);
        assert(new.wf());
        assert forall|m: u8| #[trigger] new.counter(m) == if m == n { c } else { old.counter(m) } by {
            if m == n {
                assert(forall|k: int| 0 <= k < 8 ==> old.nodes@[k] != n);
                assert(new.nodes@[f] == n);
                assert(forall|k: int| 0 <= k < 8 && k != f ==> new.nodes@[k] != n);
                assert(first_fixed(new.nodes@, m, 0) == f);
            } else if m != EMPTY_SLOT {
                assert(forall|k: int| 0 <= k < 8 ==> (new.nodes@[k] == m) == (old.nodes@[k] == m));
                let g = first_fixed(new.nodes@, m, 0);
                let h = first_fixed(old.nodes@, m, 0);
                if g < h {
                    assert(old.nodes@[g] == m);
                } else if h < g {
                    assert(new.nodes@[h] == m);
                }
            } else {
                let f2 = first_fixed(new.nodes@, m, 0);
                if f2 < 8 {
                    assert(new.counts@[f2] == 0);
                }
            }
        }
    } else if j < old.overflow@.len() {
        assert(new.wf());
        assert forall|m: u8| #[trigger] new.counter(m) == if m == n { c } else { old.counter(m) } by {
            assert(first_fixed(new.nodes@, m, 0) == first_fixed(old.nodes@, m, 0));
            assert(forall|k: int| 0 <= k < old.overflow@.len() ==> new.overflow@[k].0 == old.overflow@[k].0);
            let g = first_over(new.overflow@, m, 0);
            let h = first_over(old.overflow@, m, 0);
            if g < h {
                assert(old.overflow@[g].0 == m);
            } else if h < g {
                assert(new.overflow@[h].0 == m);
            }
        }
    } else {
        let all = old.nodes@ + old.overflow@.map_values(|p: (u8, u64)| p.0) + seq![n];
        assert(all.no_duplicates()) by {
            assert forall|a: int, b: int| 0 <= a < all.len() && 0 <= b < all.len() && a != b implies all[a] != all[b] by {
                if a < 8 && b < 8 {
                } else if a < 8 && b < all.len() - 1 {
                    assert(all[b] == old.overflow@[b - 8].0);
                } else if b < 8 && a < all.len() - 1 {
                    assert(all[a] == old.overflow@[a - 8].0);
                } else if a < all.len() - 1 && b < all.len() - 1 {
                    assert(all[a] == old.overflow@[a - 8].0);
                    assert(all[b] == old.overflow@[b - 8].0);
                } else if a == all.len() - 1 && b < 8 {
                } else if b == all.len() - 1 && a < 8 {
                } else if a == all.len() - 1 {
                    assert(all[b] == old.overflow@[b - 8].0);
                } else {
                    assert(all[a] == old.overflow@[a - 8].0);
                }
            }
        }
        lemma_u8_nodup_len(all);
        assert(old.overflow@.len() < MAX_OVERFLOW_NODES);
        assert(new.wf());
        assert forall|m: u8| #[trigger] new.counter(m) == if m == n { c } else { old.counter(m) } by {
            assert(first_fixed(new.nodes@, m, 0) == first_fixed(old.nodes@, m, 0));
            if m == n {
                assert(forall|k: int| 0 <= k < old.overflow@.len() ==> old.overflow@[k].0 != n);
                assert(new.overflow@[old.overflow@.len() as int].0 == n);
                assert(first_over(new.overflow@, m, 0) == old.overflow@.len());
            } else {
                let jo = first_over(old.overflow@, m, 0);
                assert(forall|k: int| 0 <= k < old.overflow@.len() ==> new.overflow@[k] == old.overflow@[k]);
                if jo < old.overflow@.len() {
                    let g = first_over(new.overflow@, m, 0);
                    if g < jo {
                        assert(old.overflow@[g].0 == m);
                    } else if jo < g {
                        assert(new.overflow@[jo].0 == m);
                    }
                    assert(first_over(new.overflow@, m, 0) == jo);
                } else {
                    assert(first_over(new.overflow@, m, 0) == new.overflow@.len());
                }
            }
        }
    }
}

impl VectorClock {
    /// Counter of `n` as the slots are read: first fixed slot holding `n`,
    /// else first overflow entry, else 0.
    pub open spec fn counter(&self, n: u8) -> u64 {
        let i = first_fixed(self.nodes@, n, 0);
        if i < 8 {
            self.counts@[i]
        } else {
            let j = first_over(self.overflow@, n, 0);
            if j < self.overflow@.len() {
                self.overflow@[j].1
            } else {
                0
            }
        }
    }

    /// All (node, counter) pairs: non-empty fixed slots, then overflow.
    pub open spec fn entry_seq(&self) -> Seq<(u8, u64)> {
        fixed_entries(self.nodes@, self.counts@, 8) + self.overflow@
    }

    /// Nodes held by the clock.
    pub open spec fn holds(&self, n: u8) -> bool {
        first_fixed(self.nodes@, n, 0) < 8 && n != EMPTY_SLOT || first_over(
            self.overflow@,
            n,
            0,
        ) < self.overflow@.len()
    }

    /// Some fixed slot is still free.
    pub open spec fn has_free_slot(&self) -> bool {
        first_fixed(self.nodes@, EMPTY_SLOT, 0) < 8
    }

    /// Well-formed clock: no node held twice, free slots carry 0, the
    /// overflow is used only once the fixed slots are full, and is bounded.
    pub open spec fn wf(&self) -> bool {
        &&& forall|i: int, j: int|
            0 <= i < j < 8 && self.nodes@[i] != EMPTY_SLOT ==> self.nodes@[i] != self.nodes@[j]
        &&& forall|i: int| 0 <= i < 8 && self.nodes@[i] == EMPTY_SLOT ==> self.counts@[i] == 0
        &&& forall|i: int, j: int|
            0 <= i < j < self.overflow@.len() ==> self.overflow@[i].0 != self.overflow@[j].0
        &&& forall|i: int, k: int|
            0 <= i < self.overflow@.len() && 0 <= k < 8 ==> self.overflow@[i].0
                != self.nodes@[k]
        &&& self.overflow@.len() > 0 ==> forall|k: int| 0 <= k < 8 ==> self.nodes@[k] != EMPTY_SLOT
        &&& self.overflow@.len() <= MAX_OVERFLOW_NODES
    }

    /// A write of node `n` keeps the clock well formed: node 255 may only
    /// be written once the fixed slots are full.
    pub open spec fn admits(&self, n: u8) -> bool {
        n != EMPTY_SLOT || !self.has_free_slot()
    }

    /// Exact effect of `set_counter(n, c)` on the slots.
    pub open spec fn set_counter_post(old: VectorClock, new: VectorClock, n: u8, c: u64) -> bool {
        let i = first_fixed(old.nodes@, n, 0);
        let f = first_fixed(old.nodes@, EMPTY_SLOT, 0);
        let j = first_over(old.overflow@, n, 0);
        if i < 8 {
            new.nodes@ == old.nodes@ && new.counts@ == old.counts@.update(i, c) && new.overflow@
                == old.overflow@
        } else if f < 8 {
            new.nodes@ == old.nodes@.update(f, n) && new.counts@ == old.counts@.update(f, c)
                && new.overflow@ == old.overflow@
        } else if j < old.overflow@.len() {
            new.nodes@ == old.nodes@ && new.counts@ == old.counts@ && new.overflow@
                == old.overflow@.update(j, (n, c))
        } else if old.overflow@.len() < MAX_OVERFLOW_NODES {
            new.nodes@ == old.nodes@ && new.counts@ == old.counts@ && new.overflow@
                == old.overflow@.push((n, c))
        } else {
            new.nodes@ == old.nodes@ && new.counts@ == old.counts@ && new.overflow@
                == old.overflow@
        }
    }

    /// Fresh clock: all fixed slots free, no overflow.
    pub fn new() -> (r: Self)
        ensures
            r.nodes@ == Seq::new(8, |_i: int| EMPTY_SLOT),
            r.counts@ == Seq::new(8, |_i: int| 0u64),
            r.overflow@ == Seq::<(u8, u64)>::empty(),
            r.wf(),
            forall|n: u8| #[trigger] r.counter(n) == 0,
    {
        let r = VectorClock { nodes: [0xFF; 8], counts: [0; 8], overflow: Vec::new() };
        assert(r.nodes@ =~= Seq::new(8, |_i: int| EMPTY_SLOT));
        assert(r.counts@ =~= Seq::new(8, |_i: int| 0u64));
        assert forall|n: u8| #[trigger] r.counter(n) == 0 by {
            lemma_first_fixed(r.nodes@, n, 0);
        }
        r
    }

    /// Counter of a node (0 when absent).
    pub fn counter_of(&self, node_id: u8) -> (r: u64)
        ensures
            r == self.counter(node_id),
    {
        let mut i: usize = 0;
        while i < 8
            invariant
                0 <= i <= 8,
                self.nodes@.len() == 8,
                forall|k: int| 0 <= k < i ==> self.nodes@[k] != node_id,
            decreases 8 - i,
        {
            if self.nodes[i] == node_id {
                proof {
                    lemma_first_fixed_is(self.nodes@, node_id, i as int);
                }
                return self.counts[i];
            }
            i += 1;
        }
        proof {
            lemma_first_fixed_is(self.nodes@, node_id, 8);
        }
        let mut j: usize = 0;
        while j < self.overflow.len()
            invariant
                0 <= j <= self.overflow@.len(),
                first_fixed(self.nodes@, node_id, 0) == 8,
                forall|k: int| 0 <= k < j ==> self.overflow@[k].0 != node_id,
            decreases self.overflow@.len() - j,
        {
            if self.overflow[j].0 == node_id {
                proof {
                    lemma_first_over_is(self.overflow@, node_id, j as int);
                }
                return self.overflow[j].1;
            }
            j += 1;
        }
        proof {
            lemma_first_over_is(self.overflow@, node_id, j as int);
        }
        0
    }

    /// Index of the first fixed slot holding `b` (8 when none).
    fn find_fixed(&self, b: u8) -> (r: usize)
        ensures
            r == first_fixed(self.nodes@, b, 0),
    {
        let mut i: usize = 0;
        while i < 8
            invariant
                0 <= i <= 8,
                self.nodes@.len() == 8,
                forall|k: int| 0 <= k < i ==> self.nodes@[k] != b,
            decreases 8 - i,
        {
            if self.nodes[i] == b {
                proof {
                    lemma_first_fixed_is(self.nodes@, b, i as int);
                }
                return i;
            }
            i += 1;
        }
        proof {
            lemma_first_fixed_is(self.nodes@, b, 8);
        }
        8
    }

    /// Index of the first overflow entry of node `b` (len when none).
    fn find_over(&self, b: u8) -> (r: usize)
        ensures
            r == first_over(self.overflow@, b, 0),
    {
        let mut j: usize = 0;
        while j < self.overflow.len()
            invariant
                0 <= j <= self.overflow@.len(),
                forall|k: int| 0 <= k < j ==> self.overflow@[k].0 != b,
            decreases self.overflow@.len() - j,
        {
            if self.overflow[j].0 == b {
                proof {
                    lemma_first_over_is(self.overflow@, b, j as int);
                }
                return j;
            }
            j += 1;
        }
        proof {
            lemma_first_over_is(self.overflow@, b, j as int);
        }
        j
    }

    /// Registers or updates the counter of a node: its fixed slot, else the
    /// first free fixed slot, else its overflow entry, else a new overflow
    /// entry while the registry has room (beyond that the node is ignored).
    pub fn set_counter(&mut self, node_id: u8, count: u64)
        ensures
            Self::set_counter_post(*old(self), *final(self), node_id, count),
    {
        let i = self.find_fixed(node_id);
        if i < 8 {
            self.counts[i] = count;
            return ;
        }
        let f = self.find_fixed(0xFF);
        if f < 8 {
            self.nodes[f] = node_id;
            self.counts[f] = count;
            return ;
        }
        let j = self.find_over(node_id);
        if j < self.overflow.len() {
            self.overflow.set(j, (node_id, count));
            return ;
        }
        if self.overflow.len() < MAX_OVERFLOW_NODES {
            self.overflow.push((node_id, count));
        }
    }
}


/// Bytes of the first `i` counters, each as 8 little-endian bytes.
pub open spec fn counts_bytes(counts: Seq<u64>, i: int) -> Seq<u8>
    decreases i,
{
    if i <= 0 {
        Seq::empty()
    } else {
        counts_bytes(counts, i - 1) + spec_u64_to_le_bytes(counts[i - 1])
    }
}

/// The 72 wire bytes of the fixed part of a clock (the overflow never
/// travels in NMD1).
pub open spec fn clock_wire(nodes: Seq<u8>, counts: Seq<u64>) -> Seq<u8> {
    nodes + counts_bytes(counts, 8)
}

pub proof fn lemma_counts_bytes_len(counts: Seq<u64>, i: int)
    requires
        0 <= i,
    ensures
        counts_bytes(counts, i).len() == 8 * i,
    decreases i,
{
    vstd::bytes::lemma_auto_spec_u64_to_from_le_bytes();
    if i > 0 {
        lemma_counts_bytes_len(counts, i - 1);
    }
}

/// Each counter sits at bytes `8k..8k+8` of the counter block.
pub proof fn lemma_counts_bytes_at(counts: Seq<u64>, i: int, k: int)
    requires
        0 <= k < i,
    ensures
        counts_bytes(counts, i).subrange(8 * k, 8 * k + 8) == spec_u64_to_le_bytes(counts[k]),
    decreases i,
{
    vstd::bytes::lemma_auto_spec_u64_to_from_le_bytes();
    lemma_counts_bytes_len(counts, i - 1);
    if k < i - 1 {
        lemma_counts_bytes_at(counts, i - 1, k);
        assert(counts_bytes(counts, i).subrange(8 * k, 8 * k + 8) =~= counts_bytes(
            counts,
            i - 1,
        ).subrange(8 * k, 8 * k + 8));
    } else {
        assert(counts_bytes(counts, i).subrange(8 * k, 8 * k + 8) =~= spec_u64_to_le_bytes(
            counts[k],
        ));
    }
}

/// Membership facts of the fixed entries.
pub proof fn lemma_fixed_entries(nodes: Seq<u8>, counts: Seq<u64>, i: int)
    requires
        0 <= i <= 8,
        nodes.len() == 8,
        counts.len() == 8,
    ensures
        forall|k: int|
            0 <= k < fixed_entries(nodes, counts, i).len() ==> exists|s: int|
                0 <= s < i && nodes[s] != EMPTY_SLOT && #[trigger] fixed_entries(
                    nodes,
                    counts,
                    i,
                )[k] == (nodes[s], counts[s]),
        forall|s: int|
            0 <= s < i && nodes[s] != EMPTY_SLOT ==> #[trigger] fixed_entries(
                nodes,
                counts,
                i,
            ).contains((nodes[s], counts[s])),
    decreases i,
{
    if i > 0 {
        lemma_fixed_entries(nodes, counts, i - 1);
        let p = fixed_entries(nodes, counts, i - 1);
        let q = fixed_entries(nodes, counts, i);
        assert forall|k: int| 0 <= k < q.len() implies exists|s: int|
            0 <= s < i && nodes[s] != EMPTY_SLOT && #[trigger] q[k] == (nodes[s], counts[s]) by {
            if k < p.len() {
                assert(q[k] == p[k]);
            } else {
                assert(q[k] == (nodes[i - 1], counts[i - 1]));
            }
        }
        assert forall|s: int| 0 <= s < i && nodes[s] != EMPTY_SLOT implies #[trigger] q.contains(
            (nodes[s], counts[s]),
        ) by {
            if s < i - 1 {
                assert(p.contains((nodes[s], counts[s])));
                let k = choose|k: int| 0 <= k < p.len() && p[k] == (nodes[s], counts[s]);
                assert(q[k] == p[k]);
            } else {
                assert(q[q.len() - 1] == (nodes[s], counts[s]));
            }
        }
    }
}

/// Under well-formedness the entries are exactly the held nodes with their
/// counters, and an unheld node counts 0.
pub proof fn lemma_entries(vc: VectorClock)
    requires
        vc.wf(),
    ensures
        forall|k: int|
            0 <= k < vc.entry_seq().len() ==> vc.holds(#[trigger] vc.entry_seq()[k].0)
                && vc.counter(vc.entry_seq()[k].0) == vc.entry_seq()[k].1,
        forall|n: u8| #[trigger] vc.holds(n) ==> vc.entry_seq().contains((n, vc.counter(n))),
        forall|n: u8| !(#[trigger] vc.holds(n)) ==> vc.counter(n) == 0,
{
    lemma_slots(vc);
    lemma_fixed_entries(vc.nodes@, vc.counts@, 8);
    let fe = fixed_entries(vc.nodes@, vc.counts@, 8);
    let es = vc.entry_seq();
    assert forall|k: int| 0 <= k < es.len() implies vc.holds(#[trigger] es[k].0) && vc.counter(
        es[k].0,
    ) == es[k].1 by {
        if k < fe.len() {
            assert(es[k] == fe[k]);
            let s = choose|s: int|
                0 <= s < 8 && vc.nodes@[s] != EMPTY_SLOT && #[trigger] fe[k] == (
                    vc.nodes@[s],
                    vc.counts@[s],
                );
            let g = first_fixed(vc.nodes@, es[k].0, 0);
            if g < s {
            } else if s < g {
            }
            assert(g == s);
        } else {
            let t = k - fe.len();
            assert(es[k] == vc.overflow@[t]);
            let n = es[k].0;
            let g = first_over(vc.overflow@, n, 0);
            assert(first_fixed(vc.nodes@, n, 0) == 8);
            if g < t {
            } else if t < g {
            }
            assert(g == t);
        }
    }
    assert forall|n: u8| #[trigger] vc.holds(n) implies es.contains((n, vc.counter(n))) by {
        let i = first_fixed(vc.nodes@, n, 0);
        if i < 8 && n != EMPTY_SLOT {
            assert(fe.contains((vc.nodes@[i], vc.counts@[i])));
            let k = choose|k: int| 0 <= k < fe.len() && fe[k] == (vc.nodes@[i], vc.counts@[i]);
            assert(es[k] == fe[k]);
        } else {
            if i < 8 {
                assert(vc.overflow@.len() == 0);
            }
            let j = first_over(vc.overflow@, n, 0);
            assert(es[fe.len() + j] == vc.overflow@[j]);
        }
    }
    assert forall|n: u8| !(#[trigger] vc.holds(n)) implies vc.counter(n) == 0 by {
        let i = first_fixed(vc.nodes@, n, 0);
        if i < 8 {
            assert(n == EMPTY_SLOT);
        }
    }
}

/// Semantic equality, as `==` on clocks computes it: every entry of each
/// side is matched by the counter of the other (slot order and overflow
/// placement do not matter).
pub open spec fn same_clock(a: VectorClock, b: VectorClock) -> bool {
    &&& forall|k: int|
        0 <= k < a.entry_seq().len() ==> b.counter(#[trigger] a.entry_seq()[k].0)
            == a.entry_seq()[k].1
    &&& forall|k: int|
        0 <= k < b.entry_seq().len() ==> a.counter(#[trigger] b.entry_seq()[k].0)
            == b.entry_seq()[k].1
}

/// Causal precedence as `happens_before` computes it.
pub open spec fn precedes(a: VectorClock, b: VectorClock) -> bool {
    &&& !same_clock(a, b)
    &&& forall|k: int|
        0 <= k < a.entry_seq().len() ==> a.entry_seq()[k].1 <= b.counter(
            #[trigger] a.entry_seq()[k].0,
        )
    &&& (exists|k: int|
        0 <= k < a.entry_seq().len() && a.entry_seq()[k].1 < b.counter(
            #[trigger] a.entry_seq()[k].0,
        )) || (exists|k: int|
        0 <= k < b.entry_seq().len() && a.counter(#[trigger] b.entry_seq()[k].0)
            < b.entry_seq()[k].1)
}

/// Two well-formed clocks are semantically equal iff every node has the
/// same counter in both.
pub proof fn lemma_same_clock_pointwise(a: VectorClock, b: VectorClock)
    requires
        a.wf(),
        b.wf(),
    ensures
        same_clock(a, b) <==> forall|n: u8| #[trigger] a.counter(n) == b.counter(n),
{
    lemma_entries(a);
    lemma_entries(b);
    if same_clock(a, b) {
        assert forall|n: u8| #[trigger] a.counter(n) == b.counter(n) by {
            if a.holds(n) {
                let k = choose|k: int|
                    0 <= k < a.entry_seq().len() && a.entry_seq()[k] == (n, a.counter(n));
                assert(b.counter(a.entry_seq()[k].0) == a.entry_seq()[k].1);
            } else if b.holds(n) {
                let k = choose|k: int|
                    0 <= k < b.entry_seq().len() && b.entry_seq()[k] == (n, b.counter(n));
                assert(a.counter(b.entry_seq()[k].0) == b.entry_seq()[k].1);
            }
        }
    }
}

/// Causal precedence of well-formed clocks, pointwise: every counter of
/// `a` is at most the one of `b`, and some is strictly smaller.
pub proof fn lemma_precedes_pointwise(a: VectorClock, b: VectorClock)
    requires
        a.wf(),
        b.wf(),
    ensures
        precedes(a, b) <==> (forall|n: u8| #[trigger] a.counter(n) <= b.counter(n)) && (exists|
            n: u8,
        | #[trigger] a.counter(n) < b.counter(n)),
{
    lemma_entries(a);
    lemma_entries(b);
    lemma_same_clock_pointwise(a, b);
    if precedes(a, b) {
        assert forall|n: u8| #[trigger] a.counter(n) <= b.counter(n) by {
            if a.holds(n) {
                let k = choose|k: int|
                    0 <= k < a.entry_seq().len() && a.entry_seq()[k] == (n, a.counter(n));
                assert(a.entry_seq()[k].1 <= b.counter(a.entry_seq()[k].0));
            }
        }
        if exists|k: int|
            0 <= k < a.entry_seq().len() && a.entry_seq()[k].1 < b.counter(
                #[trigger] a.entry_seq()[k].0,
            ) {
            let k = choose|k: int|
                0 <= k < a.entry_seq().len() && a.entry_seq()[k].1 < b.counter(
                    #[trigger] a.entry_seq()[k].0,
                );
            let n = a.entry_seq()[k].0;
            assert(a.counter(n) < b.counter(n));
        } else {
            let k = choose|k: int|
                0 <= k < b.entry_seq().len() && a.counter(#[trigger] b.entry_seq()[k].0)
                    < b.entry_seq()[k].1;
            let n = b.entry_seq()[k].0;
            assert(a.counter(n) < b.counter(n));
        }
    }
    if (forall|n: u8| #[trigger] a.counter(n) <= b.counter(n)) && (exists|n: u8|
        #[trigger] a.counter(n) < b.counter(n)) {
        let n = choose|n: u8| #[trigger] a.counter(n) < b.counter(n);
        assert(b.holds(n));
        let k = choose|k: int|
            0 <= k < b.entry_seq().len() && b.entry_seq()[k] == (n, b.counter(n));
        assert(a.counter(b.entry_seq()[k].0) < b.entry_seq()[k].1);
        assert forall|k: int| 0 <= k < a.entry_seq().len() implies a.entry_seq()[k].1 <= b.counter(
            #[trigger] a.entry_seq()[k].0,
        ) by {
            assert(a.counter(a.entry_seq()[k].0) <= b.counter(a.entry_seq()[k].0));
        }
    }
}

/// Exact effect of a merge on well-formed clocks: the counter of each node
/// becomes the larger of the two.
pub open spec fn is_merge_of(a: VectorClock, b: VectorClock, r: VectorClock) -> bool {
    &&& r.wf()
    &&& forall|n: u8| #[trigger] r.counter(n) == if a.counter(n) >= b.counter(n) {
        a.counter(n)
    } else {
        b.counter(n)
    }
}

/// Merging `b` into `a` keeps `a` well formed unless it would have to place
/// node 255 in a free fixed slot.
pub open spec fn merge_admissible(a: VectorClock, b: VectorClock) -> bool {
    a.wf() && b.wf() && (!a.has_free_slot() || b.counter(EMPTY_SLOT) == 0)
}

impl PartialEq for VectorClock {
    fn eq(&self, other: &Self) -> (r: bool) {
        self.same_as(other)
    }
}

impl vstd::std_specs::cmp::PartialEqSpecImpl for VectorClock {
    open spec fn obeys_eq_spec() -> bool {
        true
    }

    open spec fn eq_spec(&self, other: &VectorClock) -> bool {
        same_clock(*self, *other)
    }
}

impl Eq for VectorClock {

}

impl VectorClock {
    /// Semantic equality: same counter for every node either side holds.
    pub fn same_as(&self, other: &Self) -> (r: bool)
        ensures
            r == same_clock(*self, *other),
    {
        let mine = self.iter_nodes();
        let theirs = other.iter_nodes();
        let mut k: usize = 0;
        while k < mine.len()
            invariant
                mine@ == self.entry_seq(),
                0 <= k <= mine@.len(),
                forall|t: int| 0 <= t < k ==> other.counter(#[trigger] mine@[t].0) == mine@[t].1,
            decreases mine@.len() - k,
        {
            let (n, c) = mine[k];
            if other.counter_of(n) != c {
                return false;
            }
            k += 1;
        }
        let mut k: usize = 0;
        while k < theirs.len()
            invariant
                theirs@ == other.entry_seq(),
                0 <= k <= theirs@.len(),
                forall|t: int| 0 <= t < k ==> self.counter(#[trigger] theirs@[t].0) == theirs@[t].1,
            decreases theirs@.len() - k,
        {
            let (n, c) = theirs[k];
            if self.counter_of(n) != c {
                return false;
            }
            k += 1;
        }
        true
    }

    /// All (node, counter) pairs: fixed slots then overflow.
    fn iter_nodes(&self) -> (r: Vec<(u8, u64)>)
        ensures
            r@ == self.entry_seq(),
    {
        let mut out: Vec<(u8, u64)> = Vec::new();
        let mut i: usize = 0;
        while i < 8
            invariant
                0 <= i <= 8,
                self.nodes@.len() == 8,
                self.counts@.len() == 8,
                out@ == fixed_entries(self.nodes@, self.counts@, i as int),
            decreases 8 - i,
        {
            if self.nodes[i] != 0xFF {
                out.push((self.nodes[i], self.counts[i]));
            }
            i += 1;
        }
        let mut j: usize = 0;
        while j < self.overflow.len()
            invariant
                0 <= j <= self.overflow@.len(),
                out@ == fixed_entries(self.nodes@, self.counts@, 8) + self.overflow@.subrange(
                    0,
                    j as int,
                ),
            decreases self.overflow@.len() - j,
        {
            out.push(self.overflow[j]);
            j += 1;
            assert(out@ =~= fixed_entries(self.nodes@, self.counts@, 8) + self.overflow@.subrange(
                0,
                j as int,
            ));
        }
        assert(self.overflow@.subrange(0, self.overflow@.len() as int) =~= self.overflow@);
        out
    }

    /// Pairs (node, counter): fixed slots in slot order, then overflow in
    /// insertion order.
    pub fn entries(&self) -> (r: Vec<(u8, u64)>)
        ensures
            r@ == self.entry_seq(),
    {
        self.iter_nodes()
    }

    /// Increments the counter of a node (creating it at 1); saturates at
    /// `u64::MAX`.
    pub fn tick(&mut self, node_id: u8)
        ensures
            old(self).counter(node_id) == u64::MAX ==> *final(self) == *old(self),
            old(self).counter(node_id) < u64::MAX ==> Self::set_counter_post(
                *old(self),
                *final(self),
                node_id,
                (old(self).counter(node_id) + 1) as u64,
            ),
    {
        let c = self.counter_of(node_id);
        if c == u64::MAX {
            return ;
        }
        self.set_counter(node_id, c + 1);
    }

    /// `self` happened before `other`: no counter of `self` exceeds the one
    /// of `other`, some is strictly smaller, and the clocks differ.
    pub fn happens_before(&self, other: &Self) -> (r: bool)
        ensures
            r == precedes(*self, *other),
    {
        if self.same_as(other) {
            return false;
        }
        let mine = self.iter_nodes();
        let theirs = other.iter_nodes();
        let mut strictly_less = false;
        let mut k: usize = 0;
        while k < mine.len()
            invariant
                mine@ == self.entry_seq(),
                0 <= k <= mine@.len(),
                forall|t: int| 0 <= t < k ==> mine@[t].1 <= other.counter(#[trigger] mine@[t].0),
                strictly_less == exists|t: int|
                    0 <= t < k && mine@[t].1 < other.counter(#[trigger] mine@[t].0),
            decreases mine@.len() - k,
        {
            let (n, c) = mine[k];
            let oc = other.counter_of(n);
            if c > oc {
                return false;
            }
            if c < oc {
                strictly_less = true;
            }
            k += 1;
        }
        let ghost first_part = strictly_less;
        let mut k: usize = 0;
        while k < theirs.len()
            invariant
                theirs@ == other.entry_seq(),
                0 <= k <= theirs@.len(),
                strictly_less == (first_part || exists|t: int|
                    0 <= t < k && self.counter(#[trigger] theirs@[t].0) < theirs@[t].1),
            decreases theirs@.len() - k,
        {
            let (n, c) = theirs[k];
            if self.counter_of(n) < c {
                strictly_less = true;
            }
            k += 1;
        }
        strictly_less
    }

    /// Neither precedes the other and they differ: a real divergence.
    pub fn concurrent(&self, other: &Self) -> (r: bool)
        ensures
            r == (!same_clock(*self, *other) && !precedes(*self, *other) && !precedes(
                *other,
                *self,
            )),
    {
        !self.same_as(other) && !self.happens_before(other) && !other.happens_before(self)
    }

    /// Element-wise maximum of the counters, union of the nodes.
    pub fn merge(&mut self, other: &Self)
        ensures
            merge_admissible(*old(self), *other) ==> is_merge_of(*old(self), *other, *final(self)),
    {
        let theirs = other.iter_nodes();
        let ghost adm = merge_admissible(*self, *other);
        proof {
            if adm {
                lemma_entries(*other);
            }
        }
        let mut k: usize = 0;
        while k < theirs.len()
            invariant
                theirs@ == other.entry_seq(),
                0 <= k <= theirs@.len(),
                adm == merge_admissible(*old(self), *other),
                adm ==> self.wf(),
                adm ==> (!self.has_free_slot() || other.counter(EMPTY_SLOT) == 0),
                adm ==> forall|m: u8| #[trigger] self.counter(m) == if exists|t: int|
                    0 <= t < k && theirs@[t].0 == m {
                    if old(self).counter(m) >= other.counter(m) {
                        old(self).counter(m)
                    } else {
                        other.counter(m)
                    }
                } else {
                    old(self).counter(m)
                },
                adm ==> forall|t: int|
                    0 <= t < theirs@.len() ==> other.counter(#[trigger] theirs@[t].0)
                        == theirs@[t].1,
            decreases theirs@.len() - k,
        {
            let (n, c) = theirs[k];
            let ghost before = *self;
            if self.counter_of(n) < c {
                self.set_counter(n, c);
                proof {
                    if adm {
                        lemma_set_counter_effect(before, *self, n, c);
                        lemma_slots(before);
                    }
                }
            }
            proof {
                if adm {
                    assert forall|m: u8| #[trigger] self.counter(m) == if exists|t: int|
                        0 <= t < k + 1 && theirs@[t].0 == m {
                        if old(self).counter(m) >= other.counter(m) {
                            old(self).counter(m)
                        } else {
                            other.counter(m)
                        }
                    } else {
                        old(self).counter(m)
                    } by {
                        if m == n {
                            assert(theirs@[k as int].0 == m);
                            if exists|t: int| 0 <= t < k && theirs@[t].0 == m {
                                let t = choose|t: int| 0 <= t < k && theirs@[t].0 == m;
                                assert(other.counter(theirs@[t].0) == theirs@[t].1);
                            }
                        } else {
                            if exists|t: int| 0 <= t < k + 1 && theirs@[t].0 == m {
                                let t = choose|t: int| 0 <= t < k + 1 && theirs@[t].0 == m;
                                assert(t < k);
                            }
                        }
                    }
                }
            }
            k += 1;
        }
        proof {
            if adm {
                assert forall|m: u8| #[trigger] self.counter(m) == if old(self).counter(m)
                    >= other.counter(m) {
                    old(self).counter(m)
                } else {
                    other.counter(m)
                } by {
                    if other.holds(m) {
                        let t = choose|t: int|
                            0 <= t < theirs@.len() && theirs@[t] == (m, other.counter(m));
                        assert(theirs@[t].0 == m);
                    }
                }
            }
        }
    }
}


impl VectorClock {
    /// Writes only the 72 fixed bytes (NMD1); the overflow never travels.
    pub fn encode(&self, out: &mut Vec<u8>)
        ensures
            final(out)@ == old(out)@ + clock_wire(self.nodes@, self.counts@),
    {
        out.extend_from_slice(self.nodes.as_slice());
        let ghost base = out@;
        let mut i: usize = 0;
        while i < 8
            invariant
                0 <= i <= 8,
                self.counts@.len() == 8,
                out@ == base + counts_bytes(self.counts@, i as int),
            decreases 8 - i,
        {
            push_u64(out, self.counts[i]);
            i += 1;
            assert(out@ =~= base + counts_bytes(self.counts@, i as int));
        }
        assert(base == old(out)@ + self.nodes@);
        assert(out@ =~= old(out)@ + clock_wire(self.nodes@, self.counts@));
    }

    /// Reads the 72 fixed bytes; the result has no overflow.
    pub fn decode(data: &[u8]) -> (r: Option<(Self, usize)>)
        ensures
            r is Some <==> data@.len() >= 72,
            r matches Some((vc, n)) ==> n == 72 && vc.overflow@.len() == 0 && clock_wire(
                vc.nodes@,
                vc.counts@,
            ) == data@.subrange(0, 72),
    {
        if data.len() < 72 {
            return None;
        }
        let mut vc = VectorClock { nodes: [0xFF; 8], counts: [0; 8], overflow: Vec::new() };
        let mut i: usize = 0;
        while i < 8
            invariant
                0 <= i <= 8,
                data@.len() >= 72,
                vc.nodes@.len() == 8,
                vc.overflow@.len() == 0,
                forall|k: int| 0 <= k < i ==> vc.nodes@[k] == data@[k],
            decreases 8 - i,
        {
            vc.nodes[i] = data[i];
            i += 1;
        }
        let mut i: usize = 0;
        while i < 8
            invariant
                0 <= i <= 8,
                data@.len() >= 72,
                vc.nodes@ == data@.subrange(0, 8),
                vc.counts@.len() == 8,
                vc.overflow@.len() == 0,
                forall|k: int|
                    0 <= k < i ==> vc.counts@[k] == spec_u64_from_le_bytes(
                        data@.subrange(8 + 8 * k, 8 + 8 * k + 8),
                    ),
            decreases 8 - i,
        {
            let o = 8 + i * 8;
            let c = rd_u64(data, o);
            vc.counts[i] = c.unwrap();
            i += 1;
        }
        proof {
            lemma_le_bytes_roundtrip();
            lemma_counts_bytes_len(vc.counts@, 8);
            let cb = counts_bytes(vc.counts@, 8);
            let tail = data@.subrange(8, 72);
            assert forall|x: int| 0 <= x < 64 implies cb[x] == tail[x] by {
                let k = x / 8;
                lemma_counts_bytes_at(vc.counts@, 8, k);
                let w = data@.subrange(8 + 8 * k, 8 + 8 * k + 8);
                assert(spec_u64_to_le_bytes(spec_u64_from_le_bytes(w)) == w);
                assert(cb.subrange(8 * k, 8 * k + 8)[x - 8 * k] == cb[x]);
                assert(w[x - 8 * k] == tail[x]);
            }
            assert(cb =~= tail);
            assert(clock_wire(vc.nodes@, vc.counts@) =~= data@.subrange(0, 72));
        }
        Some((vc, 72))
    }
}

/// Reading the wire bytes of a clock gives back its fixed slots.
pub proof fn lemma_clock_wire_roundtrip(nodes: Seq<u8>, counts: Seq<u64>, n2: Seq<u8>, c2: Seq<u64>)
    requires
        nodes.len() == 8,
        counts.len() == 8,
        n2.len() == 8,
        c2.len() == 8,
        clock_wire(nodes, counts) == clock_wire(n2, c2),
    ensures
        nodes == n2,
        counts == c2,
{
    lemma_le_bytes_roundtrip();
    let w1 = clock_wire(nodes, counts);
    let w2 = clock_wire(n2, c2);
    assert(w1.subrange(0, 8) =~= nodes);
    assert(w2.subrange(0, 8) =~= n2);
    assert forall|k: int| 0 <= k < 8 implies counts[k] == c2[k] by {
        lemma_counts_bytes_at(counts, 8, k);
        lemma_counts_bytes_at(c2, 8, k);
        lemma_counts_bytes_len(counts, 8);
        lemma_counts_bytes_len(c2, 8);
        assert(counts_bytes(counts, 8) =~= w1.subrange(8, 72));
        assert(counts_bytes(c2, 8) =~= w2.subrange(8, 72));
        assert(counts_bytes(counts, 8).subrange(8 * k, 8 * k + 8) =~= counts_bytes(c2, 8).subrange(
            8 * k,
            8 * k + 8,
        ));
    }
    assert(counts =~= c2);
}

/// Law: encoding then decoding gives the clock's fixed slots back. The
/// encoding of `c` is 72 bytes, so `decode` reads it; a clock `d` whose 72
/// bytes are those holds the nodes and counters of `c`.
pub proof fn law_clock_roundtrip(c: VectorClock, d: VectorClock)
    requires
        clock_wire(d.nodes@, d.counts@) == clock_wire(c.nodes@, c.counts@).subrange(0, 72),
    ensures
        clock_wire(c.nodes@, c.counts@).len() == 72,
        d.nodes@ == c.nodes@,
        d.counts@ == c.counts@,
{
    lemma_counts_bytes_len(c.counts@, 8);
    let w = clock_wire(c.nodes@, c.counts@);
    assert(w.subrange(0, 72) =~= w);
    lemma_clock_wire_roundtrip(c.nodes@, c.counts@, d.nodes@, d.counts@);
}

/// Changing a fixed slot that neither held nor now holds `m` does not move
/// `m`'s first slot.
proof fn lemma_first_fixed_update(nodes: Seq<u8>, f: int, v: u8, m: u8)
    requires
        nodes.len() == 8,
        0 <= f < 8,
        nodes[f] != m,
        v != m,
    ensures
        first_fixed(nodes.update(f, v), m, 0) == first_fixed(nodes, m, 0),
{
    lemma_first_fixed(nodes, m, 0);
    let k = first_fixed(nodes, m, 0);
    let u = nodes.update(f, v);
    assert forall|q: int| 0 <= q < k implies u[q] != m by {
        if q != f {
            assert(u[q] == nodes[q]);
        }
    }
    lemma_first_fixed_is(u, m, k);
}

/// Changing an overflow entry that neither held nor now holds `m` does not
/// move `m`'s first entry.
proof fn lemma_first_over_update(ov: Seq<(u8, u64)>, j: int, e: (u8, u64), m: u8)
    requires
        0 <= j < ov.len(),
        ov[j].0 != m,
        e.0 != m,
    ensures
        first_over(ov.update(j, e), m, 0) == first_over(ov, m, 0),
{
    lemma_first_over(ov, m, 0);
    let k = first_over(ov, m, 0);
    let u = ov.update(j, e);
    assert forall|q: int| 0 <= q < k implies u[q].0 != m by {
        if q != j {
            assert(u[q] == ov[q]);
        }
    }
    lemma_first_over_is(u, m, k);
}

/// Law: after `set_counter(n, c)` on a well-formed clock (one that keeps the
/// write: `n` is held, a fixed slot is free, or the overflow has room), `n`
/// reads `c` and every other node reads as before.
pub proof fn law_set_counter_reads(old: VectorClock, new: VectorClock, n: u8, c: u64, m: u8)
    requires
        old.wf(),
        old.admits(n),
        VectorClock::set_counter_post(old, new, n, c),
        old.holds(n) || old.has_free_slot() || old.overflow@.len() < MAX_OVERFLOW_NODES,
        m != n,
        m != EMPTY_SLOT,
    ensures
        new.counter(n) == c,
        new.counter(m) == old.counter(m),
{
    let i = first_fixed(old.nodes@, n, 0);
    let f = first_fixed(old.nodes@, EMPTY_SLOT, 0);
    let j = first_over(old.overflow@, n, 0);
    lemma_first_fixed(old.nodes@, n, 0);
    lemma_first_fixed(old.nodes@, EMPTY_SLOT, 0);
    lemma_first_fixed(old.nodes@, m, 0);
    lemma_first_over(old.overflow@, n, 0);
    lemma_first_over(old.overflow@, m, 0);
    let im = first_fixed(old.nodes@, m, 0);
    if i < 8 {
        if im < 8 {
            assert(im != i);
        }
    } else if f < 8 {
        assert(n != EMPTY_SLOT);
        assert forall|q: int| 0 <= q < f implies #[trigger] new.nodes@[q] != n by {
            assert(new.nodes@[q] == old.nodes@[q]);
        }
        lemma_first_fixed_is(new.nodes@, n, f);
        lemma_first_fixed_update(old.nodes@, f, n, m);
        if im < 8 {
            assert(im != f);
        }
    } else if j < old.overflow@.len() {
        lemma_first_over_is(new.overflow@, n, j);
        lemma_first_over_update(old.overflow@, j, (n, c), m);
        let jm = first_over(old.overflow@, m, 0);
        if jm < old.overflow@.len() {
            assert(jm != j);
        }
    } else {
        assert(!old.holds(n));
        assert(old.overflow@.len() < MAX_OVERFLOW_NODES);
        let ov = old.overflow@;
        let nv = new.overflow@;
        assert(nv == ov.push((n, c)));
        assert forall|q: int| 0 <= q < ov.len() implies #[trigger] nv[q].0 != n by {
            assert(nv[q] == ov[q]);
        }
        lemma_first_over_is(nv, n, ov.len() as int);
        let jm = first_over(ov, m, 0);
        assert forall|q: int| 0 <= q < jm implies #[trigger] nv[q].0 != m by {
            assert(nv[q] == ov[q]);
        }
        if jm < ov.len() {
            assert(nv[jm] == ov[jm]);
            lemma_first_over_is(nv, m, jm);
        } else {
            lemma_first_over_is(nv, m, nv.len() as int);
        }
    }
}

/// Law: concurrency is symmetric — `a` diverges from `b` exactly when `b`
/// diverges from `a`.
pub proof fn law_concurrent_symmetric(a: VectorClock, b: VectorClock)
    ensures
        (!same_clock(a, b) && !precedes(a, b) && !precedes(b, a)) == (!same_clock(b, a) && !precedes(b, a)
            && !precedes(a, b)),
{
}

/// Law: merge is commutative — merging `b` into `a` and `a` into `b` give
/// semantically equal clocks.
pub proof fn law_merge_commutative(a: VectorClock, b: VectorClock, ab: VectorClock, ba: VectorClock)
    requires
        is_merge_of(a, b, ab),
        is_merge_of(b, a, ba),
    ensures
        same_clock(ab, ba),
{
    lemma_same_clock_pointwise(ab, ba);
}

/// Law: merge is associative — the order in which deliveries are merged
/// never changes the fixed point.
pub proof fn law_merge_associative(
    a: VectorClock,
    b: VectorClock,
    c: VectorClock,
    ab: VectorClock,
    ab_c: VectorClock,
    bc: VectorClock,
    a_bc: VectorClock,
)
    requires
        is_merge_of(a, b, ab),
        is_merge_of(ab, c, ab_c),
        is_merge_of(b, c, bc),
        is_merge_of(a, bc, a_bc),
    ensures
        same_clock(ab_c, a_bc),
{
    lemma_same_clock_pointwise(ab_c, a_bc);
}

/// Law: merge is idempotent — merging a clock into itself, or re-merging
/// what was already merged, changes nothing.
pub proof fn law_merge_idempotent(a: VectorClock, b: VectorClock, ab: VectorClock, ab_b: VectorClock, aa: VectorClock)
    requires
        a.wf(),
        is_merge_of(a, a, aa),
        is_merge_of(a, b, ab),
        is_merge_of(ab, b, ab_b),
    ensures
        same_clock(aa, a),
        same_clock(ab_b, ab),
{
    lemma_same_clock_pointwise(aa, a);
    lemma_same_clock_pointwise(ab_b, ab);
}

/// Law: a merge dominates both inputs — neither input is ahead of it.
pub proof fn law_merge_dominates(a: VectorClock, b: VectorClock, ab: VectorClock)
    requires
        a.wf(),
        b.wf(),
        is_merge_of(a, b, ab),
    ensures
        !precedes(ab, a),
        !precedes(ab, b),
        same_clock(ab, a) || precedes(a, ab),
{
    lemma_precedes_pointwise(ab, a);
    lemma_precedes_pointwise(ab, b);
    lemma_precedes_pointwise(a, ab);
    lemma_same_clock_pointwise(ab, a);
}

/// Law: causal precedence is a strict order on well-formed clocks —
/// irreflexive, asymmetric, transitive — and concurrency is symmetric.
pub proof fn law_precedence_strict_order(a: VectorClock, b: VectorClock, c: VectorClock)
    requires
        a.wf(),
        b.wf(),
        c.wf(),
    ensures
        !precedes(a, a),
        precedes(a, b) ==> !precedes(b, a),
        precedes(a, b) && precedes(b, c) ==> precedes(a, c),
        (!same_clock(a, b) && !precedes(a, b) && !precedes(b, a)) == (!same_clock(b, a)
            && !precedes(b, a) && !precedes(a, b)),
{
    lemma_precedes_pointwise(a, a);
    lemma_precedes_pointwise(a, b);
    lemma_precedes_pointwise(b, a);
    lemma_precedes_pointwise(b, c);
    lemma_precedes_pointwise(a, c);
    lemma_same_clock_pointwise(a, b);
    lemma_same_clock_pointwise(b, a);
    if precedes(a, b) && precedes(b, c) {
        let n = choose|n: u8| #[trigger] a.counter(n) < b.counter(n);
        assert(b.counter(n) <= c.counter(n));
    }
    if precedes(a, b) && precedes(b, a) {
        let n = choose|n: u8| #[trigger] a.counter(n) < b.counter(n);
        assert(b.counter(n) <= a.counter(n));
    }
}

/// Law: semantic equality is an equivalence on well-formed clocks.
pub proof fn law_same_clock_equivalence(a: VectorClock, b: VectorClock, c: VectorClock)
    requires
        a.wf(),
        b.wf(),
        c.wf(),
    ensures
        same_clock(a, a),
        same_clock(a, b) ==> same_clock(b, a),
        same_clock(a, b) && same_clock(b, c) ==> same_clock(a, c),
{
    lemma_same_clock_pointwise(a, a);
    lemma_same_clock_pointwise(a, b);
    lemma_same_clock_pointwise(b, a);
    lemma_same_clock_pointwise(b, c);
    lemma_same_clock_pointwise(a, c);
}

/// Law: a tick of a well-formed clock (node 255 only once the fixed slots
/// are full) raises that node's counter by one, saturating, and touches no
/// other node.
pub proof fn law_tick_increments(old: VectorClock, new: VectorClock, n: u8)
    requires
        old.wf(),
        old.admits(n),
        old.counter(n) < u64::MAX,
        VectorClock::set_counter_post(old, new, n, (old.counter(n) + 1) as u64),
    ensures
        new.wf(),
        new.counter(n) == old.counter(n) + 1,
        forall|m: u8| m != n ==> #[trigger] new.counter(m) == old.counter(m),
        precedes(old, new),
{
    lemma_set_counter_effect(old, new, n, (old.counter(n) + 1) as u64);
    lemma_precedes_pointwise(old, new);
    assert(old.counter(n) < new.counter(n));
}

} // verus!
