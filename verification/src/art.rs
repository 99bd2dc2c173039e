//! Adaptive radix tree over byte keys.
//!
//! Inner nodes come in four kinds (4, 16, 48 and 256 slots) that grow as
//! children are added and shrink again as they are removed; an inner node
//! keeps its whole compressed prefix, and a leaf keeps its whole key.
//! Deleting reclaims nodes: a leaf is removed, and an inner node left
//! without children is removed from its parent.
//!
//! Keys where one is a proper prefix of another are not supported: a key
//! is inserted only when it is prefix-compatible with every stored key.
use vstd::prelude::*;
use vstd::slice::*;
use vstd::pervasive::VecAdditionalExecFns;
use vstd::string::StringSliceAdditionalSpecFns;
use vstd::utf8::{valid_utf8, decode_utf8, encode_utf8, encode_utf8_valid_utf8, encode_utf8_decode_utf8, decode_utf8_encode_utf8};
use crate::wire::{starts_with, lemma_starts_with};
use crate::text::utf8_str;

verus! {

/// A tree node. Slot tables have a fixed length per kind: `Inner4` and
/// `Inner16` keep the branch byte of slot `i` in `keys[i]` for the first
/// `n` slots; `Inner48` maps each byte to a slot index plus one (0 when
/// absent); `Inner256` is indexed by the byte itself.
enum Node {
    Leaf { key: Vec<u8>, value: u64 },
    Inner4 { prefix: Vec<u8>, keys: Vec<u8>, children: Vec<Option<Box<Node>>>, n: u8 },
    Inner16 { prefix: Vec<u8>, keys: Vec<u8>, children: Vec<Option<Box<Node>>>, n: u8 },
    Inner48 { prefix: Vec<u8>, keys: Vec<u8>, children: Vec<Option<Box<Node>>>, n: u8 },
    Inner256 { prefix: Vec<u8>, children: Vec<Option<Box<Node>>>, n: u16 },
}

/// `k` holds the bytes `p` at offset `d`.
pub open spec fn matches_at(k: Seq<u8>, d: int, p: Seq<u8>) -> bool {
    0 <= d && d + p.len() <= k.len() && k.subrange(d, d + p.len()) == p
}

/// `a` is a proper prefix of `b`.
pub open spec fn proper_prefix(a: Seq<u8>, b: Seq<u8>) -> bool {
    a.len() < b.len() && b.subrange(0, a.len() as int) == a
}

/// Index of the first of the slots `i..n` whose byte is `b` (`n` if none).
pub open spec fn first_slot(keys: Seq<u8>, b: u8, i: int, n: int) -> int
    decreases n - i,
{
    if i >= n {
        n
    } else if keys[i] == b {
        i
    } else {
        first_slot(keys, b, i + 1, n)
    }
}

/// Number of non-zero entries among the first `i` of `s`.
pub open spec fn count_nz(s: Seq<u8>, i: int) -> nat
    decreases i,
{
    if i <= 0 {
        0
    } else {
        count_nz(s, i - 1) + if s[i - 1] != 0 {
            1nat
        } else {
            0nat
        }
    }
}

/// Number of occupied slots among the first `i` of `s`.
spec fn count_some(s: Seq<Option<Box<Node>>>, i: int) -> nat
    decreases i,
{
    if i <= 0 {
        0
    } else {
        count_some(s, i - 1) + if s[i - 1] is Some {
            1nat
        } else {
            0nat
        }
    }
}

/// Value reached by searching `k` from `node` at depth `d`, following the
/// same path as a lookup: prefix, branch byte, child.
spec fn lookup(node: Node, k: Seq<u8>, d: int) -> Option<u64>
    decreases node,
{
    match node {
        Node::Leaf { key, value } => if key@ == k {
            Some(value)
        } else {
            None
        },
        Node::Inner4 { prefix, keys, children, n } => {
            let d2 = d + prefix@.len();
            if matches_at(k, d, prefix@) && d2 < k.len() {
                let i = first_slot(keys@, k[d2], 0, n as int);
                if 0 <= i < n && i < children@.len() && children@[i] is Some {
                    lookup(*children@[i]->0, k, d2 + 1)
                } else {
                    None
                }
            } else {
                None
            }
        },
        Node::Inner16 { prefix, keys, children, n } => {
            let d2 = d + prefix@.len();
            if matches_at(k, d, prefix@) && d2 < k.len() {
                let i = first_slot(keys@, k[d2], 0, n as int);
                if 0 <= i < n && i < children@.len() && children@[i] is Some {
                    lookup(*children@[i]->0, k, d2 + 1)
                } else {
                    None
                }
            } else {
                None
            }
        },
        Node::Inner48 { prefix, keys, children, n } => {
            let d2 = d + prefix@.len();
            if matches_at(k, d, prefix@) && d2 < k.len() && keys@.len() == 256 {
                let i = keys@[k[d2] as int] - 1;
                if 0 <= i < children@.len() && children@[i] is Some {
                    lookup(*children@[i]->0, k, d2 + 1)
                } else {
                    None
                }
            } else {
                None
            }
        },
        Node::Inner256 { prefix, children, n } => {
            let d2 = d + prefix@.len();
            if matches_at(k, d, prefix@) && d2 < k.len() && children@.len() == 256
                && children@[k[d2] as int] is Some {
                lookup(*children@[k[d2] as int]->0, k, d2 + 1)
            } else {
                None
            }
        },
    }
}

/// Well-formedness of a subtree reached by the bytes `pre`: slot tables of
/// their kind's length, occupied exactly as counted, distinct branch bytes,
/// at least one child per inner node, and every key below starting with
/// `pre`, the node's prefix and the branch byte.
spec fn wf(node: Node, pre: Seq<u8>) -> bool
    decreases node,
{
    match node {
        Node::Leaf { key, value } => starts_with(key@, pre),
        Node::Inner4 { prefix, keys, children, n } => {
            &&& keys@.len() == 4 && children@.len() == 4 && 1 <= n <= 4
            &&& small_slots(keys@, children@, n as int)
            &&& forall|i: int|
                0 <= i < n && i < children@.len() && children@[i] is Some ==> wf(
                    *#[trigger] children@[i]->0,
                    pre + prefix@ + seq![keys@[i]],
                )
        },
        Node::Inner16 { prefix, keys, children, n } => {
            &&& keys@.len() == 16 && children@.len() == 16 && 1 <= n <= 16
            &&& small_slots(keys@, children@, n as int)
            &&& forall|i: int|
                0 <= i < n && i < children@.len() && children@[i] is Some ==> wf(
                    *#[trigger] children@[i]->0,
                    pre + prefix@ + seq![keys@[i]],
                )
        },
        Node::Inner48 { prefix, keys, children, n } => {
            &&& keys@.len() == 256 && children@.len() == 48 && 1 <= n <= 48
            &&& table48(keys@, children@, n as int)
            &&& forall|b: int|
                0 <= b < 256 && #[trigger] keys@[b] != 0 && keys@[b] - 1 < children@.len()
                    && children@[keys@[b] - 1] is Some ==> wf(
                    *children@[keys@[b] - 1]->0,
                    pre + prefix@ + seq![b as u8],
                )
        },
        Node::Inner256 { prefix, children, n } => {
            &&& children@.len() == 256 && 1 <= n && n == count_some(children@, 256)
            &&& forall|b: int|
                0 <= b < 256 && b < children@.len() && children@[b] is Some ==> wf(
                    *#[trigger] children@[b]->0,
                    pre + prefix@ + seq![b as u8],
                )
        },
    }
}

/// Slot table of `Inner4`/`Inner16`: the first `n` slots occupied with
/// distinct bytes, the rest empty.
spec fn small_slots(keys: Seq<u8>, children: Seq<Option<Box<Node>>>, n: int) -> bool {
    &&& forall|i: int| 0 <= i < children.len() ==> (#[trigger] children[i] is Some <==> i < n)
    &&& forall|i: int, j: int| 0 <= i < j < n ==> keys[i] != keys[j]
}

/// Some byte maps to slot `i`.
pub open spec fn referenced(keys: Seq<u8>, i: int) -> bool {
    exists|b: int| 0 <= b < 256 && #[trigger] keys[b] == i + 1
}

/// Byte table of `Inner48`: entries in `0..=n`, injective where non-zero,
/// every slot `0..n` referenced and occupied, the rest empty, and `n`
/// non-zero entries.
spec fn table48(keys: Seq<u8>, children: Seq<Option<Box<Node>>>, n: int) -> bool {
    &&& forall|b: int| 0 <= b < 256 ==> #[trigger] keys[b] <= n
    &&& forall|b1: int, b2: int|
        0 <= b1 < 256 && 0 <= b2 < 256 && b1 != b2 && keys[b1] != 0 ==> #[trigger] keys[b1]
            != #[trigger] keys[b2]
    &&& forall|i: int| 0 <= i < n ==> #[trigger] referenced(keys, i)
    &&& forall|i: int| 0 <= i < children.len() ==> (#[trigger] children[i] is Some <==> i < n)
    &&& count_nz(keys, 256) == n
}

/// Leaves of a subtree in slot order, as (key, value).
spec fn leaves(node: Node) -> Seq<(Seq<u8>, u64)>
    decreases node, 0int,
{
    match node {
        Node::Leaf { key, value } => seq![(key@, value)],
        Node::Inner4 { children, n, .. } => slot_leaves(children@, n as int),
        Node::Inner16 { children, n, .. } => slot_leaves(children@, n as int),
        Node::Inner48 { children, n, .. } => slot_leaves(children@, n as int),
        Node::Inner256 { children, .. } => slot_leaves(children@, children@.len() as int),
    }
}

/// Leaves under the first `i` slots of `s`.
spec fn slot_leaves(s: Seq<Option<Box<Node>>>, i: int) -> Seq<(Seq<u8>, u64)>
    decreases s, i,
{
    if i <= 0 || i > s.len() {
        Seq::empty()
    } else {
        slot_leaves(s, i - 1) + match s[i - 1] {
            Some(c) => leaves(*c),
            None => Seq::empty(),
        }
    }
}

/// The value a map holds for `k`, if any.
pub open spec fn entry(m: Map<Seq<u8>, u64>, k: Seq<u8>) -> Option<u64> {
    if m.dom().contains(k) {
        Some(m[k])
    } else {
        None
    }
}

/// Lookup from an optional root.
spec fn lookup_root(root: Option<Box<Node>>, k: Seq<u8>) -> Option<u64> {
    match root {
        Some(r) => lookup(*r, k, 0),
        None => None,
    }
}

// ---------------------------------------------------------------------------
// Lemmas on slot search and counts
// ---------------------------------------------------------------------------

proof fn lemma_first_slot(keys: Seq<u8>, b: u8, i: int, n: int)
    requires
        0 <= i <= n,
    ensures
        i <= first_slot(keys, b, i, n) <= n,
        first_slot(keys, b, i, n) < n ==> keys[first_slot(keys, b, i, n)] == b,
        forall|k: int| i <= k < first_slot(keys, b, i, n) ==> keys[k] != b,
    decreases n - i,
{
    if i < n && keys[i] != b {
        lemma_first_slot(keys, b, i + 1, n);
    }
}

/// `first_slot` is the index of the first match, or `n`.
proof fn lemma_first_slot_is(keys: Seq<u8>, b: u8, n: int, j: int)
    requires
        0 <= j <= n,
        forall|k: int| 0 <= k < j ==> keys[k] != b,
        j < n ==> keys[j] == b,
    ensures
        first_slot(keys, b, 0, n) == j,
{
    lemma_first_slot(keys, b, 0, n);
    let f = first_slot(keys, b, 0, n);
    if f < j {
        assert(keys[f] == b);
    }
    if j < f {
        assert(keys[j] != b);
    }
}

/// `first_slot` reads only the first `n` keys.
proof fn lemma_first_slot_ext(k1: Seq<u8>, k2: Seq<u8>, b: u8, n: int)
    requires
        0 <= n <= k1.len(),
        n <= k2.len(),
        forall|i: int| 0 <= i < n ==> k1[i] == k2[i],
    ensures
        first_slot(k1, b, 0, n) == first_slot(k2, b, 0, n),
{
    lemma_first_slot(k1, b, 0, n);
    lemma_first_slot_is(k2, b, n, first_slot(k1, b, 0, n));
}

/// Appending a slot with byte `b` to the first `n`: `b` is found there, any
/// other byte where it was.
proof fn lemma_first_slot_push(keys: Seq<u8>, k2: Seq<u8>, b: u8, c: u8, n: int)
    requires
        0 <= n < k2.len(),
        n <= keys.len(),
        forall|i: int| 0 <= i < n ==> keys[i] == k2[i],
        k2[n] == b,
        first_slot(keys, b, 0, n) == n,
    ensures
        first_slot(k2, c, 0, n + 1) == (if c == b {
            n
        } else if first_slot(keys, c, 0, n) < n {
            first_slot(keys, c, 0, n)
        } else {
            n + 1
        }),
{
    lemma_first_slot(keys, c, 0, n);
    lemma_first_slot(keys, b, 0, n);
    let f = first_slot(keys, c, 0, n);
    if c == b {
        lemma_first_slot_is(k2, c, n + 1, n);
    } else if f < n {
        lemma_first_slot_is(k2, c, n + 1, f);
    } else {
        lemma_first_slot_is(k2, c, n + 1, n + 1);
    }
}

/// With distinct bytes, slot `i` is the one found for its own byte.
proof fn lemma_first_slot_distinct(keys: Seq<u8>, n: int, i: int)
    requires
        0 <= i < n <= keys.len(),
        forall|a: int, b: int| 0 <= a < b < n ==> keys[a] != keys[b],
    ensures
        first_slot(keys, keys[i], 0, n) == i,
{
    lemma_first_slot_is(keys, keys[i], n, i);
}

proof fn lemma_count_nz_bound(s: Seq<u8>, i: int)
    requires
        0 <= i,
    ensures
        count_nz(s, i) <= i,
    decreases i,
{
    if i > 0 {
        lemma_count_nz_bound(s, i - 1);
    }
}

/// Changing one entry changes the count of non-zero entries by the change
/// of that entry's zero-ness.
proof fn lemma_count_nz_update(s: Seq<u8>, p: int, v: u8, i: int)
    requires
        0 <= p < s.len(),
        0 <= i <= s.len(),
    ensures
        count_nz(s.update(p, v), i) + (if p < i && s[p] != 0 {
            1int
        } else {
            0int
        }) == count_nz(s, i) + (if p < i && v != 0 {
            1int
        } else {
            0int
        }),
    decreases i,
{
    if i > 0 {
        lemma_count_nz_update(s, p, v, i - 1);
    }
}

/// Counts agree on sequences that agree on the counted prefix.
proof fn lemma_count_nz_ext(s1: Seq<u8>, s2: Seq<u8>, i: int)
    requires
        0 <= i <= s1.len(),
        i <= s2.len(),
        forall|k: int| 0 <= k < i ==> (s1[k] != 0) == (s2[k] != 0),
    ensures
        count_nz(s1, i) == count_nz(s2, i),
    decreases i,
{
    if i > 0 {
        lemma_count_nz_ext(s1, s2, i - 1);
    }
}

proof fn lemma_count_some_bound(s: Seq<Option<Box<Node>>>, i: int, j: int)
    requires
        0 <= i <= j,
    ensures
        count_some(s, i) <= count_some(s, j),
        count_some(s, j) <= count_some(s, i) + (j - i),
    decreases j - i,
{
    if i < j {
        lemma_count_some_bound(s, i, j - 1);
    }
}

proof fn lemma_count_some_update(s: Seq<Option<Box<Node>>>, p: int, v: Option<Box<Node>>, i: int)
    requires
        0 <= p < s.len(),
        0 <= i <= s.len(),
    ensures
        count_some(s.update(p, v), i) + (if p < i && s[p] is Some {
            1int
        } else {
            0int
        }) == count_some(s, i) + (if p < i && v is Some {
            1int
        } else {
            0int
        }),
    decreases i,
{
    if i > 0 {
        lemma_count_some_update(s, p, v, i - 1);
    }
}

proof fn lemma_count_some_zero(s: Seq<Option<Box<Node>>>, i: int)
    requires
        0 <= i <= s.len(),
    ensures
        count_some(s, i) == 0 <==> forall|k: int| 0 <= k < i ==> s[k] is None,
    decreases i,
{
    if i > 0 {
        lemma_count_some_zero(s, i - 1);
    }
}

// ---------------------------------------------------------------------------
// Lemmas on lookup
// ---------------------------------------------------------------------------

/// Every key found below a well-formed node starts with the bytes that
/// reach it.
proof fn lemma_lookup_prefix(node: Node, pre: Seq<u8>, k: Seq<u8>)
    requires
        wf(node, pre),
        lookup(node, k, pre.len() as int) is Some,
    ensures
        starts_with(k, pre),
    decreases node,
{
    let d = pre.len() as int;
    match node {
        Node::Leaf { key, value } => {
            assert(key@ == k);
            assert(starts_with(key@, pre));
        },
        Node::Inner4 { prefix, keys, children, n } => {
            let d2 = d + prefix@.len();
            let i = first_slot(keys@, k[d2], 0, n as int);
            let pc = pre + prefix@ + seq![keys@[i]];
            lemma_small_child(node, pre, i);
            lemma_lookup_prefix(*children@[i]->0, pc, k);
            lemma_starts_with(k, pc);
            assert(k.subrange(0, d) =~= pc.subrange(0, d));
            assert(pc.subrange(0, d) =~= pre);
        },
        Node::Inner16 { prefix, keys, children, n } => {
            let d2 = d + prefix@.len();
            let i = first_slot(keys@, k[d2], 0, n as int);
            let pc = pre + prefix@ + seq![keys@[i]];
            lemma_small_child(node, pre, i);
            lemma_lookup_prefix(*children@[i]->0, pc, k);
            lemma_starts_with(k, pc);
            assert(k.subrange(0, d) =~= pc.subrange(0, d));
            assert(pc.subrange(0, d) =~= pre);
        },
        Node::Inner48 { prefix, keys, children, n } => {
            let d2 = d + prefix@.len();
            let b = k[d2] as int;
            let pc = pre + prefix@ + seq![b as u8];
            assert(wf(*children@[keys@[b] - 1]->0, pc));
            lemma_lookup_prefix(*children@[keys@[b] - 1]->0, pc, k);
            lemma_starts_with(k, pc);
            assert(k.subrange(0, d) =~= pc.subrange(0, d));
            assert(pc.subrange(0, d) =~= pre);
        },
        Node::Inner256 { prefix, children, n } => {
            let d2 = d + prefix@.len();
            let b = k[d2] as int;
            let pc = pre + prefix@ + seq![b as u8];
            assert(wf(*children@[b]->0, pc));
            lemma_lookup_prefix(*children@[b]->0, pc, k);
            lemma_starts_with(k, pc);
            assert(k.subrange(0, d) =~= pc.subrange(0, d));
            assert(pc.subrange(0, d) =~= pre);
        },
    }
}

/// A well-formed node holds at least one key, and that key extends the
/// node's own prefix.
proof fn lemma_nonempty(node: Node, pre: Seq<u8>) -> (k: Seq<u8>)
    requires
        wf(node, pre),
    ensures
        lookup(node, k, pre.len() as int) is Some,
        starts_with(k, pre),
        !(node is Leaf) ==> starts_with(k, pre + node_prefix(node)) && k.len() > pre.len()
            + node_prefix(node).len(),
    decreases node,
{
    let d = pre.len() as int;
    match node {
        Node::Leaf { key, value } => key@,
        Node::Inner4 { prefix, keys, children, n } => {
            let pc = pre + prefix@ + seq![keys@[0]];
            lemma_small_child(node, pre, 0);
            let k = lemma_nonempty(*children@[0]->0, pc);
            lemma_starts_with(k, pc);
            assert(k.subrange(d, d + prefix@.len()) =~= prefix@);
            lemma_first_slot_distinct(keys@, n as int, 0);
            assert(k.subrange(0, d) =~= pre);
            assert(k.subrange(0, d + prefix@.len()) =~= pre + prefix@);
            k
        },
        Node::Inner16 { prefix, keys, children, n } => {
            let pc = pre + prefix@ + seq![keys@[0]];
            lemma_small_child(node, pre, 0);
            let k = lemma_nonempty(*children@[0]->0, pc);
            lemma_starts_with(k, pc);
            assert(k.subrange(d, d + prefix@.len()) =~= prefix@);
            lemma_first_slot_distinct(keys@, n as int, 0);
            assert(k.subrange(0, d) =~= pre);
            assert(k.subrange(0, d + prefix@.len()) =~= pre + prefix@);
            k
        },
        Node::Inner48 { prefix, keys, children, n } => {
            assert(referenced(keys@, 0));
            let b = choose|b: int| 0 <= b < 256 && #[trigger] keys@[b] == 0 + 1;
            let pc = pre + prefix@ + seq![b as u8];
            assert(wf(*children@[keys@[b] - 1]->0, pc));
            let k = lemma_nonempty(*children@[keys@[b] - 1]->0, pc);
            lemma_starts_with(k, pc);
            assert(k.subrange(d, d + prefix@.len()) =~= prefix@);
            assert(k.subrange(0, d) =~= pre);
            assert(k.subrange(0, d + prefix@.len()) =~= pre + prefix@);
            k
        },
        Node::Inner256 { prefix, children, n } => {
            lemma_count_some_zero(children@, 256);
            let b = choose|b: int| 0 <= b < 256 && children@[b] is Some;
            let pc = pre + prefix@ + seq![b as u8];
            assert(wf(*children@[b]->0, pc));
            let k = lemma_nonempty(*children@[b]->0, pc);
            lemma_starts_with(k, pc);
            assert(k.subrange(d, d + prefix@.len()) =~= prefix@);
            assert(k.subrange(0, d) =~= pre);
            assert(k.subrange(0, d + prefix@.len()) =~= pre + prefix@);
            k
        },
    }
}

/// Prefix of an inner node (empty for a leaf).
spec fn node_prefix(node: Node) -> Seq<u8> {
    match node {
        Node::Leaf { .. } => Seq::empty(),
        Node::Inner4 { prefix, .. } => prefix@,
        Node::Inner16 { prefix, .. } => prefix@,
        Node::Inner48 { prefix, .. } => prefix@,
        Node::Inner256 { prefix, .. } => prefix@,
    }
}

/// Slot table of an inner node (empty for a leaf).
spec fn kids(node: Node) -> Seq<Option<Box<Node>>> {
    match node {
        Node::Leaf { .. } => Seq::empty(),
        Node::Inner4 { children, .. } => children@,
        Node::Inner16 { children, .. } => children@,
        Node::Inner48 { children, .. } => children@,
        Node::Inner256 { children, .. } => children@,
    }
}

/// Byte table of an inner node (empty for a leaf or `Inner256`).
spec fn bytes_of(node: Node) -> Seq<u8> {
    match node {
        Node::Inner4 { keys, .. } => keys@,
        Node::Inner16 { keys, .. } => keys@,
        Node::Inner48 { keys, .. } => keys@,
        _ => Seq::empty(),
    }
}

/// Child count of an inner node (0 for a leaf).
spec fn count_of(node: Node) -> int {
    match node {
        Node::Leaf { .. } => 0,
        Node::Inner4 { n, .. } => n as int,
        Node::Inner16 { n, .. } => n as int,
        Node::Inner48 { n, .. } => n as int,
        Node::Inner256 { n, .. } => n as int,
    }
}

/// Slot `i` of a well-formed 4- or 16-slot node is occupied by a subtree
/// reached by the node's prefix and the slot's byte.
proof fn lemma_small_child(node: Node, pre: Seq<u8>, i: int)
    requires
        wf(node, pre),
        node is Inner4 || node is Inner16,
        0 <= i < count_of(node),
    ensures
        i < kids(node).len(),
        kids(node)[i] is Some,
        wf(*kids(node)[i]->0, pre + node_prefix(node) + seq![bytes_of(node)[i]]),
{
    match node {
        Node::Inner4 { prefix, keys, children, n } => {
            assert(children@[i] is Some);
        },
        Node::Inner16 { prefix, keys, children, n } => {
            assert(children@[i] is Some);
        },
        _ => {},
    }
}

/// Slot that `k` is routed to from an inner node at depth `d`: the node's
/// prefix must match and a branch byte must follow; `None` otherwise (and
/// for a leaf). The slot may be empty.
spec fn route(node: Node, k: Seq<u8>, d: int) -> Option<int> {
    let p = node_prefix(node);
    let d2 = d + p.len();
    if node is Leaf || !matches_at(k, d, p) || d2 >= k.len() {
        None
    } else {
        match node {
            Node::Inner4 { keys, n, .. } => {
                let i = first_slot(keys@, k[d2], 0, n as int);
                if i < n {
                    Some(i)
                } else {
                    None
                }
            },
            Node::Inner16 { keys, n, .. } => {
                let i = first_slot(keys@, k[d2], 0, n as int);
                if i < n {
                    Some(i)
                } else {
                    None
                }
            },
            Node::Inner48 { keys, .. } => if keys@.len() == 256 && keys@[k[d2] as int] != 0 {
                Some(keys@[k[d2] as int] - 1)
            } else {
                None
            },
            Node::Inner256 { children, .. } => if children@.len() == 256 {
                Some(k[d2] as int)
            } else {
                None
            },
            _ => None,
        }
    }
}

/// Lookup through an inner node: follow the routed slot, if occupied.
proof fn lemma_lookup_unfold(node: Node, k: Seq<u8>, d: int)
    requires
        !(node is Leaf),
    ensures
        lookup(node, k, d) == match route(node, k, d) {
            Some(i) => if 0 <= i < kids(node).len() && kids(node)[i] is Some {
                lookup(*kids(node)[i]->0, k, d + node_prefix(node).len() + 1)
            } else {
                None
            },
            None => None,
        },
{
    let p = node_prefix(node);
    let d2 = d + p.len();
    match node {
        Node::Inner4 { keys, n, .. } => {
            if matches_at(k, d, p) && d2 < k.len() {
                lemma_first_slot(keys@, k[d2], 0, n as int);
            }
        },
        Node::Inner16 { keys, n, .. } => {
            if matches_at(k, d, p) && d2 < k.len() {
                lemma_first_slot(keys@, k[d2], 0, n as int);
            }
        },
        _ => {},
    }
}

/// Two inner nodes of the same kind with the same prefix and byte table
/// route every key alike.
spec fn same_routing(a: Node, b: Node) -> bool {
    &&& !(a is Leaf) && !(b is Leaf)
    &&& (a is Inner4 <==> b is Inner4) && (a is Inner16 <==> b is Inner16) && (a is Inner48
        <==> b is Inner48) && (a is Inner256 <==> b is Inner256)
    &&& node_prefix(a) == node_prefix(b)
    &&& bytes_of(a) == bytes_of(b)
    &&& count_of(a) == count_of(b)
    &&& kids(a).len() == kids(b).len()
}

proof fn lemma_same_routing(a: Node, b: Node, k: Seq<u8>, d: int)
    requires
        same_routing(a, b),
    ensures
        route(a, k, d) == route(b, k, d),
{
}

/// Replacing the child of one occupied slot changes lookup only for the keys
/// routed to that slot.
proof fn lemma_update_child(node: Node, new: Node, i: int, c2: Node, d: int)
    requires
        same_routing(node, new),
        0 <= i < kids(node).len(),
        kids(node)[i] is Some,
        kids(new) == kids(node).update(i, Some(Box::new(c2))),
    ensures
        forall|k: Seq<u8>|
            #[trigger] lookup(new, k, d) == if route(node, k, d) == Some(i) {
                lookup(c2, k, d + node_prefix(node).len() + 1)
            } else {
                lookup(node, k, d)
            },
{
    assert forall|k: Seq<u8>|
        #[trigger] lookup(new, k, d) == if route(node, k, d) == Some(i) {
            lookup(c2, k, d + node_prefix(node).len() + 1)
        } else {
            lookup(node, k, d)
        } by {
        lemma_lookup_unfold(node, k, d);
        lemma_lookup_unfold(new, k, d);
        lemma_same_routing(node, new, k, d);
    }
}

/// Insert postcondition: `key` now maps to `value`, every other key as
/// before.
spec fn inserted(old: Node, new: Node, key: Seq<u8>, d: int, value: u64) -> bool {
    forall|k: Seq<u8>|
        #[trigger] lookup(new, k, d) == if k == key {
            Some(value)
        } else {
            lookup(old, k, d)
        }
}

/// `new` keeps the kind, prefix, byte table and count of the inner node
/// `old`, and every slot but `i`, which stays occupied.
spec fn slot_swapped(old: Node, new: Node, i: int) -> bool {
    &&& same_routing(old, new)
    &&& kids(new).len() == kids(old).len()
    &&& 0 <= i < kids(new).len()
    &&& kids(new)[i] is Some
    &&& forall|j: int| 0 <= j < kids(old).len() && j != i ==> #[trigger] kids(new)[j] == kids(old)[j]
}

/// `new` is `old` with the value of the leaf that holds `key` replaced by
/// `value` in place: every node on the path to it keeps its kind, prefix,
/// byte table, count and other slots.
spec fn value_replaced(old: Node, new: Node, key: Seq<u8>, d: int, value: u64) -> bool
    decreases old,
{
    match old {
        Node::Leaf { key: lk, .. } => new matches Node::Leaf { key: nk, value: nv } && nk@ == lk@ && nv == value,
        Node::Inner4 { prefix, children, .. } => match route(old, key, d) {
            Some(i) => 0 <= i < children@.len() && children@[i] is Some && slot_swapped(old, new, i)
                && value_replaced(*children@[i]->0, *kids(new)[i]->0, key, d + prefix@.len() + 1, value),
            None => false,
        },
        Node::Inner16 { prefix, children, .. } => match route(old, key, d) {
            Some(i) => 0 <= i < children@.len() && children@[i] is Some && slot_swapped(old, new, i)
                && value_replaced(*children@[i]->0, *kids(new)[i]->0, key, d + prefix@.len() + 1, value),
            None => false,
        },
        Node::Inner48 { prefix, children, .. } => match route(old, key, d) {
            Some(i) => 0 <= i < children@.len() && children@[i] is Some && slot_swapped(old, new, i)
                && value_replaced(*children@[i]->0, *kids(new)[i]->0, key, d + prefix@.len() + 1, value),
            None => false,
        },
        Node::Inner256 { prefix, children, .. } => match route(old, key, d) {
            Some(i) => 0 <= i < children@.len() && children@[i] is Some && slot_swapped(old, new, i)
                && value_replaced(*children@[i]->0, *kids(new)[i]->0, key, d + prefix@.len() + 1, value),
            None => false,
        },
    }
}

/// `new` is the inner node `old` with one child more: the same prefix, and
/// the same kind while a slot is free, else the next larger kind
/// (4 to 16, 16 to 48, 48 to 256).
spec fn child_added(old: Node, new: Node) -> bool {
    &&& node_prefix(new) == node_prefix(old)
    &&& count_of(new) == count_of(old) + 1
    &&& match old {
        Node::Inner4 { n, .. } => if n < 4 { new is Inner4 } else { new is Inner16 },
        Node::Inner16 { n, .. } => if n < 16 { new is Inner16 } else { new is Inner48 },
        Node::Inner48 { n, .. } => if n < 48 { new is Inner48 } else { new is Inner256 },
        Node::Inner256 { .. } => new is Inner256,
        Node::Leaf { .. } => false,
    }
}

/// Shape of the tree after adding a key it did not hold: the nodes on the
/// path keep their kind, prefix and other slots down to where the key
/// branches off; there a leaf becomes a 4-slot node of two leaves, an inner
/// node whose prefix the key leaves is split under a new 4-slot node of two
/// children, and an inner node reached at a free branch gets the new leaf
/// as one more child (growing to the next kind when full).
spec fn key_added(old: Node, new: Node, key: Seq<u8>, d: int) -> bool
    decreases old,
{
    match old {
        Node::Leaf { .. } => new is Inner4 && count_of(new) == 2,
        Node::Inner4 { prefix, children, .. } => if !matches_at(key, d, prefix@) {
            new is Inner4 && count_of(new) == 2
        } else {
            match route(old, key, d) {
                Some(i) => if 0 <= i < children@.len() && children@[i] is Some {
                    slot_swapped(old, new, i) && key_added(*children@[i]->0, *kids(new)[i]->0, key, d + prefix@.len() + 1)
                } else {
                    child_added(old, new)
                },
                None => child_added(old, new),
            }
        },
        Node::Inner16 { prefix, children, .. } => if !matches_at(key, d, prefix@) {
            new is Inner4 && count_of(new) == 2
        } else {
            match route(old, key, d) {
                Some(i) => if 0 <= i < children@.len() && children@[i] is Some {
                    slot_swapped(old, new, i) && key_added(*children@[i]->0, *kids(new)[i]->0, key, d + prefix@.len() + 1)
                } else {
                    child_added(old, new)
                },
                None => child_added(old, new),
            }
        },
        Node::Inner48 { prefix, children, .. } => if !matches_at(key, d, prefix@) {
            new is Inner4 && count_of(new) == 2
        } else {
            match route(old, key, d) {
                Some(i) => if 0 <= i < children@.len() && children@[i] is Some {
                    slot_swapped(old, new, i) && key_added(*children@[i]->0, *kids(new)[i]->0, key, d + prefix@.len() + 1)
                } else {
                    child_added(old, new)
                },
                None => child_added(old, new),
            }
        },
        Node::Inner256 { prefix, children, .. } => if !matches_at(key, d, prefix@) {
            new is Inner4 && count_of(new) == 2
        } else {
            match route(old, key, d) {
                Some(i) => if 0 <= i < children@.len() && children@[i] is Some {
                    slot_swapped(old, new, i) && key_added(*children@[i]->0, *kids(new)[i]->0, key, d + prefix@.len() + 1)
                } else {
                    child_added(old, new)
                },
                None => child_added(old, new),
            }
        },
    }
}

/// Every key below `node` is prefix-compatible with `key`.
spec fn compatible(node: Node, key: Seq<u8>, d: int) -> bool {
    forall|k: Seq<u8>|
        #[trigger] lookup(node, k, d) is Some ==> !proper_prefix(k, key) && !proper_prefix(key, k)
}

/// Delete postcondition: `key` is gone, every other key as before.
spec fn removed(old: Node, new: Node, key: Seq<u8>, d: int) -> bool {
    forall|k: Seq<u8>|
        #[trigger] lookup(new, k, d) == if k == key {
            None
        } else {
            lookup(old, k, d)
        }
}

// ---------------------------------------------------------------------------
// Byte helpers
// ---------------------------------------------------------------------------

/// Whether two byte strings are equal.
fn bytes_eq(a: &[u8], b: &[u8]) -> (r: bool)
    ensures
        r == (a@ == b@),
{
    if a.len() != b.len() {
        return false;
    }
    let mut i: usize = 0;
    while i < a.len()
        invariant
            a@.len() == b@.len(),
            0 <= i <= a@.len(),
            forall|j: int| 0 <= j < i ==> a@[j] == b@[j],
        decreases a@.len() - i,
    {
        if a[i] != b[i] {
            return false;
        }
        i += 1;
    }
    assert(a@ =~= b@);
    true
}

/// Whether `k` holds the bytes `p` at offset `d`.
fn matches_prefix(k: &[u8], d: usize, p: &[u8]) -> (r: bool)
    ensures
        r == matches_at(k@, d as int, p@),
{
    if d > k.len() || k.len() - d < p.len() {
        return false;
    }
    let mut i: usize = 0;
    while i < p.len()
        invariant
            d + p@.len() <= k@.len(),
            k@.len() == k.len(),
            0 <= i <= p@.len(),
            forall|j: int| 0 <= j < i ==> k@[d + j] == p@[j],
        decreases p@.len() - i,
    {
        if k[d + i] != p[i] {
            assert(k@.subrange(d as int, d + p@.len())[i as int] != p@[i as int]);
            return false;
        }
        i += 1;
    }
    assert(k@.subrange(d as int, d + p@.len()) =~= p@);
    true
}

/// Length of the longest common prefix of `a[oa..]` and `b[ob..]`.
fn common_prefix(a: &[u8], oa: usize, b: &[u8], ob: usize) -> (r: usize)
    requires
        oa <= a@.len(),
        ob <= b@.len(),
    ensures
        oa + r <= a@.len(),
        ob + r <= b@.len(),
        a@.subrange(oa as int, oa + r) == b@.subrange(ob as int, ob + r),
        oa + r < a@.len() && ob + r < b@.len() ==> a@[oa + r] != b@[ob + r],
{
    let mut i: usize = 0;
    while i < a.len() - oa && i < b.len() - ob && a[oa + i] == b[ob + i]
        invariant
            oa + i <= a@.len(),
            ob + i <= b@.len(),
            a@.subrange(oa as int, oa + i) == b@.subrange(ob as int, ob + i),
        decreases a@.len() - i,
    {
        assert(a@.subrange(oa as int, oa + i + 1) =~= a@.subrange(oa as int, oa + i).push(a@[oa + i]));
        assert(b@.subrange(ob as int, ob + i + 1) =~= b@.subrange(ob as int, ob + i).push(b@[ob + i]));
        i += 1;
    }
    i
}

/// First of the first `n` slots whose byte is `b` (`n` if none).
fn find_small(keys: &Vec<u8>, n: u8, b: u8) -> (r: usize)
    requires
        n <= keys@.len(),
    ensures
        r == first_slot(keys@, b, 0, n as int),
{
    let mut i: usize = 0;
    while i < n as usize
        invariant
            n <= keys@.len(),
            0 <= i <= n,
            forall|j: int| 0 <= j < i ==> keys@[j] != b,
        decreases n - i,
    {
        if keys[i] == b {
            proof {
                lemma_first_slot_is(keys@, b, n as int, i as int);
            }
            return i;
        }
        i += 1;
    }
    proof {
        lemma_first_slot_is(keys@, b, n as int, n as int);
    }
    i
}

/// Slot of byte `b` among the first `n` of a 16-slot node, if any.
fn find_child_byte16(keys: &Vec<u8>, n: u8, byte: u8) -> (r: Option<usize>)
    requires
        n <= keys@.len(),
    ensures
        r is Some ==> r->0 == first_slot(keys@, byte, 0, n as int) && r->0 < n,
        r is None ==> first_slot(keys@, byte, 0, n as int) >= n,
{
    if n == 0 {
        proof {
            lemma_first_slot(keys@, byte, 0, 0);
        }
        return None;
    }
    let i = find_small(keys, n, byte);
    if i < n as usize {
        Some(i)
    } else {
        None
    }
}

/// `count` empty slots.
fn empty_slots(count: usize) -> (r: Vec<Option<Box<Node>>>)
    ensures
        r@.len() == count,
        forall|i: int| 0 <= i < count ==> r@[i] is None,
{
    let mut v: Vec<Option<Box<Node>>> = Vec::new();
    let mut i: usize = 0;
    while i < count
        invariant
            0 <= i <= count,
            v@.len() == i,
            forall|j: int| 0 <= j < i ==> v@[j] is None,
        decreases count - i,
    {
        v.push(None);
        i += 1;
    }
    v
}

/// Sixteen empty slots.
fn empty16() -> (r: Vec<Option<Box<Node>>>)
    ensures
        r@.len() == 16,
        forall|i: int| 0 <= i < 16 ==> r@[i] is None,
{
    empty_slots(16)
}

/// Forty-eight empty slots.
fn empty48() -> (r: Vec<Option<Box<Node>>>)
    ensures
        r@.len() == 48,
        forall|i: int| 0 <= i < 48 ==> r@[i] is None,
{
    empty_slots(48)
}

/// Two hundred fifty-six empty slots.
fn empty256() -> (r: Vec<Option<Box<Node>>>)
    ensures
        r@.len() == 256,
        forall|i: int| 0 <= i < 256 ==> r@[i] is None,
{
    empty_slots(256)
}

/// Takes the child out of slot `i`, leaving it empty.
fn take_slot(children: &mut Vec<Option<Box<Node>>>, i: usize) -> (r: Option<Box<Node>>)
    requires
        i < old(children)@.len(),
    ensures
        r == old(children)@[i as int],
        final(children)@ == old(children)@.update(i as int, None),
{
    let mut out: Option<Box<Node>> = None;
    children.set_and_swap(i, &mut out);
    out
}

// ---------------------------------------------------------------------------
// Insert
// ---------------------------------------------------------------------------

/// A leaf holding a copy of `key`.
fn new_leaf(key: &[u8], value: u64) -> (r: Node)
    ensures
        r == (Node::Leaf { key: r->key, value }),
        r->key@ == key@,
{
    Node::Leaf { key: slice_to_vec(key), value }
}

/// Slots `0` and `1` of a fresh 4-slot node hold the two given bytes.
proof fn lemma_two_slots(b1: u8, b2: u8, c: u8)
    requires
        b1 != b2,
    ensures
        first_slot(seq![b1, b2, 0u8, 0u8], c, 0, 2) == (if c == b1 {
            0int
        } else if c == b2 {
            1int
        } else {
            2int
        }),
{
    let s = seq![b1, b2, 0u8, 0u8];
    if c == b1 {
        lemma_first_slot_is(s, c, 2, 0);
    } else if c == b2 {
        lemma_first_slot_is(s, c, 2, 1);
    } else {
        lemma_first_slot_is(s, c, 2, 2);
    }
}

/// Inserts `key` into a leaf reached at `depth`: the same key gets the new
/// value; another key splits the leaf into a 4-slot node holding the common
/// bytes past `depth` as its prefix and the two leaves under their first
/// differing bytes.
fn insert_leaf(lk: Vec<u8>, old_v: u64, key: &[u8], depth: usize, value: u64, len: &mut usize) -> (r:
    Node)
    requires
        depth <= key@.len(),
        starts_with(lk@, key@.take(depth as int)),
        !proper_prefix(lk@, key@),
        !proper_prefix(key@, lk@),
        *old(len) < usize::MAX,
    ensures
        wf(r, key@.take(depth as int)),
        inserted(Node::Leaf { key: lk, value: old_v }, r, key@, depth as int, value),
        lk@ == key@ ==> (r matches Node::Leaf { key: nk, value: nv } && nk@ == lk@ && nv == value),
        lk@ != key@ ==> (r is Inner4 && count_of(r) == 2),
        *final(len) == *old(len) + if lk@ == key@ {
            0int
        } else {
            1int
        },
{
    let ghost pre = key@.take(depth as int);
    let ghost old_node = Node::Leaf { key: lk, value: old_v };
    if bytes_eq(lk.as_slice(), key) {
        let r = new_leaf(key, value);
        proof {
            assert forall|k: Seq<u8>|
                #[trigger] lookup(r, k, depth as int) == if k == key@ {
                    Some(value)
                } else {
                    lookup(old_node, k, depth as int)
                } by {}
            assert(key@.subrange(0, pre.len() as int) =~= pre);
        }
        return r;
    }
    proof {
        lemma_starts_with(lk@, pre);
    }
    let lo = if depth < lk.len() {
        depth
    } else {
        lk.len()
    };
    let ko = if depth < key.len() {
        depth
    } else {
        key.len()
    };
    let cp = common_prefix(lk.as_slice(), lo, key, ko);
    let d2 = depth + cp;
    proof {
        // Neither key is a prefix of the other, so they differ past `d2`.
        assert(lk@.subrange(0, depth as int) =~= key@.subrange(0, depth as int));
        assert(lk@.subrange(0, d2 as int) =~= key@.subrange(0, d2 as int)) by {
            assert forall|j: int| 0 <= j < d2 implies lk@[j] == key@[j] by {
                if j >= depth {
                    assert(lk@.subrange(depth as int, d2 as int)[j - depth] == key@.subrange(
                        depth as int,
                        d2 as int,
                    )[j - depth]);
                } else {
                    assert(lk@.subrange(0, depth as int)[j] == key@.subrange(0, depth as int)[j]);
                }
            }
        }
        if d2 == lk@.len() {
            assert(key@.subrange(0, lk@.len() as int) =~= lk@);
        }
        if d2 == key@.len() {
            assert(lk@.subrange(0, key@.len() as int) =~= key@);
        }
    }
    let prefix = slice_to_vec(slice_subrange(lk.as_slice(), depth, d2));
    let b1 = if d2 < lk.len() {
        lk[d2]
    } else {
        0
    };
    let b2 = if d2 < key.len() {
        key[d2]
    } else {
        0
    };
    let leaf2 = new_leaf(key, value);
    *len += 1;
    let r = Node::Inner4 {
        prefix,
        keys: vec![b1, b2, 0, 0],
        children: vec![Some(Box::new(Node::Leaf { key: lk, value: old_v })), Some(Box::new(leaf2)), None, None],
        n: 2,
    };
    proof {
        let pc1 = pre + prefix@ + seq![b1];
        let pc2 = pre + prefix@ + seq![b2];
        assert(lk@.subrange(0, pc1.len() as int) =~= pc1);
        assert(key@.subrange(0, pc2.len() as int) =~= pc2);
        assert(wf(r, pre)) by {
            reveal_with_fuel(wf, 2);
            match r {
                Node::Inner4 { prefix, keys, children, n } => {
                    assert(keys@ =~= seq![b1, b2, 0u8, 0u8]);
                    assert(small_slots(keys@, children@, n as int));
                    assert(wf(*children@[0]->0, pre + prefix@ + seq![keys@[0]]));
                    assert(wf(*children@[1]->0, pre + prefix@ + seq![keys@[1]]));
                },
                _ => {},
            }
        }
        assert forall|k: Seq<u8>|
            #[trigger] lookup(r, k, depth as int) == if k == key@ {
                Some(value)
            } else {
                lookup(old_node, k, depth as int)
            } by {
            lemma_lookup_unfold(r, k, depth as int);
            assert(bytes_of(r) =~= seq![b1, b2, 0u8, 0u8]);
            if matches_at(k, depth as int, prefix@) && d2 < k.len() {
                lemma_two_slots(b1, b2, k[d2 as int]);
            }
            if k == lk@ {
                assert(k.subrange(depth as int, d2 as int) =~= prefix@);
            }
            if k == key@ {
                assert(k.subrange(depth as int, d2 as int) =~= prefix@);
            }
        }
    }
    r
}

/// Same kind, byte table, count and slots (the prefix may differ).
spec fn reshaped(a: Node, b: Node) -> bool {
    &&& !(a is Leaf) && !(b is Leaf)
    &&& (a is Inner4 <==> b is Inner4) && (a is Inner16 <==> b is Inner16) && (a is Inner48
        <==> b is Inner48) && (a is Inner256 <==> b is Inner256)
    &&& bytes_of(a) == bytes_of(b)
    &&& count_of(a) == count_of(b)
    &&& kids(a) == kids(b)
}

/// The inner node with its prefix replaced by `p`, and the prefix it had.
fn swap_prefix(node: Node, p: Vec<u8>) -> (r: (Node, Vec<u8>))
    requires
        !(node is Leaf),
    ensures
        reshaped(node, r.0),
        node_prefix(r.0) == p@,
        r.1@ == node_prefix(node),
{
    match node {
        Node::Inner4 { prefix, keys, children, n } => (Node::Inner4 { prefix: p, keys, children, n }, prefix),
        Node::Inner16 { prefix, keys, children, n } => (
            Node::Inner16 { prefix: p, keys, children, n },
            prefix,
        ),
        Node::Inner48 { prefix, keys, children, n } => (
            Node::Inner48 { prefix: p, keys, children, n },
            prefix,
        ),
        Node::Inner256 { prefix, children, n } => (Node::Inner256 { prefix: p, children, n }, prefix),
        Node::Leaf { key, value } => (Node::Leaf { key, value }, p),
    }
}

/// Moving bytes between the path and the prefix keeps a node well formed
/// as long as path and prefix together are unchanged.
proof fn lemma_wf_reprefix(node: Node, pre: Seq<u8>, new: Node, pre2: Seq<u8>)
    requires
        reshaped(node, new),
        wf(node, pre),
        pre + node_prefix(node) == pre2 + node_prefix(new),
    ensures
        wf(new, pre2),
{
    let a = pre + node_prefix(node);
    match node {
        Node::Inner4 { prefix, keys, children, n } => match new {
            Node::Inner4 { prefix: p2, keys: k2, children: c2, n: n2 } => {
                assert forall|i: int|
                    0 <= i < n2 && i < c2@.len() && c2@[i] is Some implies wf(
                    *#[trigger] c2@[i]->0,
                    pre2 + p2@ + seq![k2@[i]],
                ) by {
                    assert(children@[i] is Some);
                    assert(pre2 + p2@ + seq![k2@[i]] == pre + prefix@ + seq![keys@[i]]);
                }
            },
            _ => {},
        },
        Node::Inner16 { prefix, keys, children, n } => match new {
            Node::Inner16 { prefix: p2, keys: k2, children: c2, n: n2 } => {
                assert forall|i: int|
                    0 <= i < n2 && i < c2@.len() && c2@[i] is Some implies wf(
                    *#[trigger] c2@[i]->0,
                    pre2 + p2@ + seq![k2@[i]],
                ) by {
                    assert(children@[i] is Some);
                    assert(pre2 + p2@ + seq![k2@[i]] == pre + prefix@ + seq![keys@[i]]);
                }
            },
            _ => {},
        },
        Node::Inner48 { prefix, keys, children, n } => match new {
            Node::Inner48 { prefix: p2, keys: k2, children: c2, n: n2 } => {
                assert forall|b: int|
                    0 <= b < 256 && #[trigger] k2@[b] != 0 && k2@[b] - 1 < c2@.len() && c2@[k2@[b]
                        - 1] is Some implies wf(
                    *c2@[k2@[b] - 1]->0,
                    pre2 + p2@ + seq![b as u8],
                ) by {
                    assert(keys@[b] != 0);
                    assert(pre2 + p2@ + seq![b as u8] == pre + prefix@ + seq![b as u8]);
                }
            },
            _ => {},
        },
        Node::Inner256 { prefix, children, n } => match new {
            Node::Inner256 { prefix: p2, children: c2, n: n2 } => {
                assert forall|b: int|
                    0 <= b < 256 && b < c2@.len() && c2@[b] is Some implies wf(
                    *#[trigger] c2@[b]->0,
                    pre2 + p2@ + seq![b as u8],
                ) by {
                    assert(children@[b] is Some);
                    assert(pre2 + p2@ + seq![b as u8] == pre + prefix@ + seq![b as u8]);
                }
            },
            _ => {},
        },
        _ => {},
    }
}

/// Lookup through a node whose prefix lost its first `c + 1` bytes, for a
/// key that holds those bytes: the same as through the node before the cut.
proof fn lemma_lookup_reprefix(node: Node, new: Node, k: Seq<u8>, d: int, c: int)
    requires
        reshaped(node, new),
        0 <= d,
        0 <= c < node_prefix(node).len(),
        node_prefix(new) == node_prefix(node).subrange(c + 1, node_prefix(node).len() as int),
        d + c < k.len(),
        k.subrange(d, d + c + 1) == node_prefix(node).subrange(0, c + 1),
    ensures
        lookup(new, k, d + c + 1) == lookup(node, k, d),
{
    let np = node_prefix(node);
    let op = node_prefix(new);
    let e = d + np.len();
    if e <= k.len() {
        if k.subrange(d, e) == np {
            assert(k.subrange(d + c + 1, e) =~= np.subrange(c + 1, np.len() as int));
        }
        if k.subrange(d + c + 1, e) == op {
            assert(k.subrange(d, e) =~= k.subrange(d, d + c + 1) + k.subrange(d + c + 1, e));
            assert(np =~= np.subrange(0, c + 1) + np.subrange(c + 1, np.len() as int));
        }
    }
    assert(route(new, k, d + c + 1) == route(node, k, d));
    lemma_lookup_unfold(node, k, d);
    lemma_lookup_unfold(new, k, d + c + 1);
}

/// Inserts `key` where it leaves the prefix of the inner node reached at
/// `depth`: a new 4-slot node takes the common part of the prefix, with the
/// old node (its prefix shortened past the differing byte) and a new leaf
/// below.
fn insert_split(node: Node, key: &[u8], depth: usize, value: u64, len: &mut usize) -> (r: Node)
    requires
        !(node is Leaf),
        depth <= key@.len(),
        wf(node, key@.take(depth as int)),
        compatible(node, key@, depth as int),
        !matches_at(key@, depth as int, node_prefix(node)),
        *old(len) < usize::MAX,
    ensures
        wf(r, key@.take(depth as int)),
        inserted(node, r, key@, depth as int, value),
        *final(len) == *old(len) + 1,
        r is Inner4 && count_of(r) == 2,
{
    let ghost pre = key@.take(depth as int);
    let ghost orig = node;
    let (node, np) = swap_prefix(node, Vec::new());
    let cp = common_prefix(np.as_slice(), 0, key, depth);
    if cp >= np.len() || cp >= key.len() - depth {
        proof {
            let k = lemma_nonempty(orig, pre);
            lemma_starts_with(k, pre + np@);
            if cp >= np.len() {
                assert(key@.subrange(depth as int, depth + np@.len()) =~= np@);
            } else {
                assert(k.subrange(0, key@.len() as int) =~= key@) by {
                    assert forall|j: int| 0 <= j < key@.len() implies k[j] == key@[j] by {
                        if j < depth {
                            assert(k[j] == (pre + np@)[j]);
                        } else {
                            assert(k[j] == (pre + np@)[j]);
                            assert(np@.subrange(0, cp as int)[j - depth] == key@.subrange(
                                depth as int,
                                depth + cp,
                            )[j - depth]);
                        }
                    }
                }
                assert(lookup(orig, k, depth as int) is Some);
                assert(proper_prefix(key@, k));
            }
        }
        let (node, _) = swap_prefix(node, np);
        return node;
    }
    let shared = slice_to_vec(slice_subrange(np.as_slice(), 0, cp));
    let nb = np[cp];
    let kb = key[depth + cp];
    let old_prefix = slice_to_vec(slice_subrange(np.as_slice(), cp + 1, np.len()));
    let (old, _) = swap_prefix(node, old_prefix);
    let leaf = new_leaf(key, value);
    *len += 1;
    let r = Node::Inner4 {
        prefix: shared,
        keys: vec![nb, kb, 0, 0],
        children: vec![Some(Box::new(old)), Some(Box::new(leaf)), None, None],
        n: 2,
    };
    proof {
        let d = depth as int;
        let e = d + cp;
        assert(np@ =~= shared@ + seq![nb] + old_prefix@);
        assert(shared@ =~= key@.subrange(d, e));
        assert(pre + node_prefix(orig) =~= (pre + shared@ + seq![nb]) + node_prefix(old));
        lemma_wf_reprefix(orig, pre, old, pre + shared@ + seq![nb]);
        let pc2 = pre + shared@ + seq![kb];
        assert(key@.subrange(0, pc2.len() as int) =~= pc2);
        assert(wf(r, pre)) by {
            reveal_with_fuel(wf, 2);
            match r {
                Node::Inner4 { prefix, keys, children, n } => {
                    assert(keys@ =~= seq![nb, kb, 0u8, 0u8]);
                    assert(small_slots(keys@, children@, n as int));
                    assert(wf(*children@[0]->0, pre + prefix@ + seq![keys@[0]]));
                    assert(wf(*children@[1]->0, pre + prefix@ + seq![keys@[1]]));
                },
                _ => {},
            }
        }
        assert forall|k: Seq<u8>|
            #[trigger] lookup(r, k, d) == if k == key@ {
                Some(value)
            } else {
                lookup(orig, k, d)
            } by {
            lemma_lookup_unfold(r, k, d);
            lemma_lookup_unfold(orig, k, d);
            assert(bytes_of(r) =~= seq![nb, kb, 0u8, 0u8]);
            if matches_at(k, d, shared@) && e < k.len() {
                lemma_two_slots(nb, kb, k[e]);
                if k[e] == nb {
                    assert(k.subrange(d, e + 1) =~= np@.subrange(0, cp + 1));
                    lemma_lookup_reprefix(orig, old, k, d, cp as int);
                }
            }
            if matches_at(k, d, np@) {
                assert(k.subrange(d, e) =~= np@.subrange(0, cp as int));
                assert(k[e] == np@[cp as int]);
            }
            if k == key@ {
                assert(k.subrange(d, e) =~= shared@);
            }
        }
    }
    r
}

/// Conditions for adding a leaf for `key` below an inner node reached at
/// `d`: the prefix matches, a branch byte follows, and the node is well
/// formed.
spec fn add_pre(node: Node, key: Seq<u8>, d: int) -> bool {
    &&& !(node is Leaf)
    &&& 0 <= d <= key.len()
    &&& wf(node, key.take(d))
    &&& matches_at(key, d, node_prefix(node))
    &&& d + node_prefix(node).len() < key.len()
}

/// Adds a leaf for `key` in the first free slot of a 4- or 16-slot node
/// that has room and no slot for the key's branch byte.
fn small_add(node: Node, key: &[u8], depth: usize, value: u64) -> (r: Node)
    requires
        node is Inner4 || node is Inner16,
        count_of(node) < kids(node).len(),
        add_pre(node, key@, depth as int),
        route(node, key@, depth as int) is None,
    ensures
        wf(r, key@.take(depth as int)),
        inserted(node, r, key@, depth as int, value),
        child_added(node, r),
{
    let ghost pre = key@.take(depth as int);
    let ghost orig = node;
    match node {
        Node::Inner4 { prefix, mut keys, mut children, n } => {
            assert(prefix@ == node_prefix(orig));
            assert(depth + prefix@.len() < key@.len());
            let pl = prefix.len();
            assert(pl == prefix@.len());
            assert(key@.len() == key.len());
            let d2 = depth + pl;
            let b = key[d2];
            keys.set(n as usize, b);
            let leaf = new_leaf(key, value);
            let ghost gl = leaf;
            children.set(n as usize, Some(Box::new(leaf)));
            let r = Node::Inner4 { prefix, keys, children, n: n + 1 };
            proof {
                lemma_small_add(orig, r, gl, key@, depth as int, value);
            }
            r
        },
        Node::Inner16 { prefix, mut keys, mut children, n } => {
            assert(prefix@ == node_prefix(orig));
            assert(depth + prefix@.len() < key@.len());
            let pl = prefix.len();
            assert(pl == prefix@.len());
            assert(key@.len() == key.len());
            let d2 = depth + pl;
            let b = key[d2];
            keys.set(n as usize, b);
            let leaf = new_leaf(key, value);
            let ghost gl = leaf;
            children.set(n as usize, Some(Box::new(leaf)));
            let r = Node::Inner16 { prefix, keys, children, n: n + 1 };
            proof {
                lemma_small_add(orig, r, gl, key@, depth as int, value);
            }
            r
        },
        _ => node,
    }
}

/// A 4- or 16-slot node `r` that keeps the first `n` slots of `node` and
/// adds, in slot `n`, a leaf for `key` under its branch byte.
proof fn lemma_small_add(node: Node, r: Node, leaf: Node, key: Seq<u8>, d: int, value: u64)
    requires
        node is Inner4 || node is Inner16,
        r is Inner4 || r is Inner16,
        r is Inner4 ==> bytes_of(r).len() == 4 && kids(r).len() == 4,
        r is Inner16 ==> bytes_of(r).len() == 16 && kids(r).len() == 16,
        count_of(node) < kids(r).len(),
        count_of(r) == count_of(node) + 1,
        add_pre(node, key, d),
        route(node, key, d) is None,
        node_prefix(r) == node_prefix(node),
        forall|j: int|
            0 <= j < count_of(node) ==> bytes_of(r)[j] == bytes_of(node)[j] && kids(r)[j] == kids(
                node,
            )[j],
        bytes_of(r)[count_of(node)] == key[d + node_prefix(node).len()],
        kids(r)[count_of(node)] == Some(Box::new(leaf)),
        leaf == (Node::Leaf { key: leaf->key, value }),
        leaf->key@ == key,
        forall|j: int| count_of(node) < j < kids(r).len() ==> kids(r)[j] is None,
    ensures
        wf(r, key.take(d)),
        inserted(node, r, key, d, value),
{
    let pre = key.take(d);
    let p = node_prefix(node);
    let d2 = d + p.len();
    let b = key[d2];
    let n = count_of(node);
    let ks = bytes_of(node);
    let ks2 = bytes_of(r);
    lemma_first_slot(ks, b, 0, n);
    let pc = pre + p + seq![b];
    assert(key.subrange(0, pc.len() as int) =~= pc) by {
        assert(key.subrange(d, d2) == p);
    }
    assert(forall|j: int| 0 <= j < n ==> kids(node)[j] is Some) by {
        assert forall|j: int| 0 <= j < n implies kids(node)[j] is Some by {
            lemma_small_child(node, pre, j);
        }
    }
    assert(wf(r, pre)) by {
        reveal_with_fuel(wf, 2);
        assert forall|i: int, j: int| 0 <= i < j < n + 1 implies ks2[i] != ks2[j] by {
            if j == n {
                assert(ks[i] != b);
            } else {
                assert(ks[i] != ks[j]) by {
                    match node {
                        Node::Inner4 { keys, children, n, .. } => {
                            assert(small_slots(keys@, children@, n as int));
                        },
                        Node::Inner16 { keys, children, n, .. } => {
                            assert(small_slots(keys@, children@, n as int));
                        },
                        _ => {},
                    }
                }
            }
        }
        assert forall|i: int|
            0 <= i < n + 1 && i < kids(r).len() && kids(r)[i] is Some implies wf(
            *#[trigger] kids(r)[i]->0,
            pre + node_prefix(r) + seq![ks2[i]],
        ) by {
            if i < n {
                lemma_small_child(node, pre, i);
            }
        }
        match r {
            Node::Inner4 { prefix, keys, children, n } => {
                assert(small_slots(keys@, children@, n as int));
            },
            Node::Inner16 { prefix, keys, children, n } => {
                assert(small_slots(keys@, children@, n as int));
            },
            _ => {},
        }
    }
    assert forall|k: Seq<u8>|
        #[trigger] lookup(r, k, d) == if k == key {
            Some(value)
        } else {
            lookup(node, k, d)
        } by {
        lemma_lookup_unfold(node, k, d);
        lemma_lookup_unfold(r, k, d);
        if matches_at(k, d, p) && d2 < k.len() {
            lemma_first_slot_push(ks, ks2, b, k[d2], n);
        }
        if k == key {
            assert(route(r, k, d) == Some(n));
        }
    }
}

/// Grows a full 4-slot node into a 16-slot node holding its four children
/// and a new leaf for `key` in slot 4.
fn grow4(node: Node, key: &[u8], depth: usize, value: u64) -> (r: Node)
    requires
        node is Inner4,
        count_of(node) == 4,
        add_pre(node, key@, depth as int),
        route(node, key@, depth as int) is None,
    ensures
        wf(r, key@.take(depth as int)),
        inserted(node, r, key@, depth as int, value),
        child_added(node, r),
{
    let ghost orig = node;
    match node {
        Node::Inner4 { prefix, keys, mut children, n } => {
            assert(prefix@ == node_prefix(orig));
            assert(depth + prefix@.len() < key@.len());
            let pl = prefix.len();
            assert(key@.len() == key.len());
            let d2 = depth + pl;
            let b = key[d2];
            let mut k16: Vec<u8> = vec![0u8; 16];
            let mut c16 = empty16();
            let ghost oc = children@;
            let mut i: usize = 0;
            while i < 4
                invariant
                    0 <= i <= 4,
                    keys@.len() == 4,
                    oc.len() == 4,
                    k16@.len() == 16,
                    c16@.len() == 16,
                    children@.len() == 4,
                    forall|j: int| 0 <= j < i ==> k16@[j] == keys@[j],
                    forall|j: int| 0 <= j < i ==> c16@[j] == oc[j],
                    forall|j: int| i <= j < 4 ==> children@[j] == oc[j],
                    forall|j: int| i <= j < 16 ==> c16@[j] is None,
                decreases 4 - i,
            {
                let kb = keys[i];
                k16.set(i, kb);
                let c = take_slot(&mut children, i);
                assert(c == oc[i as int]);
                c16.set(i, c);
                i += 1;
            }
            assert(oc == kids(orig));
            assert(keys@ == bytes_of(orig));
            k16.set(4, b);
            let leaf = new_leaf(key, value);
            let ghost gl = leaf;
            c16.set(4, Some(Box::new(leaf)));
            let r = Node::Inner16 { prefix, keys: k16, children: c16, n: 5 };
            proof {
                lemma_small_add(orig, r, gl, key@, depth as int, value);
            }
            r
        },
        _ => node,
    }
}

/// Grows a full 16-slot node into a 48-slot node: each byte maps to its
/// old slot (plus one), and the new leaf for `key` takes slot 16.
fn grow16(node: Node, key: &[u8], depth: usize, value: u64) -> (r: Node)
    requires
        node is Inner16,
        count_of(node) == 16,
        add_pre(node, key@, depth as int),
        route(node, key@, depth as int) is None,
    ensures
        wf(r, key@.take(depth as int)),
        inserted(node, r, key@, depth as int, value),
        child_added(node, r),
{
    let ghost orig = node;
    let ghost pre = key@.take(depth as int);
    match node {
        Node::Inner16 { prefix, keys, mut children, n } => {
            assert(prefix@ == node_prefix(orig));
            assert(depth + prefix@.len() < key@.len());
            let pl = prefix.len();
            assert(key@.len() == key.len());
            let d2 = depth + pl;
            let b = key[d2];
            proof {
                lemma_first_slot(keys@, b, 0, 16);
                assert(small_slots(keys@, children@, 16));
            }
            let mut k48: Vec<u8> = vec![0u8; 256];
            let mut c48 = empty48();
            let ghost oc = children@;
            proof {
                assert(count_nz(k48@, 256) == 0) by {
                    lemma_count_nz_ext(k48@, Seq::new(256, |j: int| 0u8), 256);
                    lemma_count_nz_zero(256);
                }
            }
            let mut i: usize = 0;
            while i < 16
                invariant
                    0 <= i <= 16,
                    keys@.len() == 16,
                    oc.len() == 16,
                    k48@.len() == 256,
                    c48@.len() == 48,
                    children@.len() == 16,
                    forall|a: int, c: int| 0 <= a < c < 16 ==> keys@[a] != keys@[c],
                    forall|j: int| 0 <= j < i ==> #[trigger] k48@[keys@[j] as int] == j + 1,
                    forall|c: int|
                        0 <= c < 256 && #[trigger] k48@[c] != 0 ==> 1 <= k48@[c] <= i && keys@[k48@[c]
                            - 1] == c,
                    count_nz(k48@, 256) == i,
                    forall|j: int| 0 <= j < i ==> c48@[j] == oc[j],
                    forall|j: int| i <= j < 16 ==> children@[j] == oc[j],
                    forall|j: int| i <= j < 48 ==> c48@[j] is None,
                decreases 16 - i,
            {
                let kb = keys[i];
                proof {
                    if k48@[kb as int] != 0 {
                        let m = k48@[kb as int] - 1;
                        assert(keys@[m] == kb);
                    }
                    lemma_count_nz_update(k48@, kb as int, (i + 1) as u8, 256);
                }
                k48.set(kb as usize, (i + 1) as u8);
                let c = take_slot(&mut children, i);
                assert(c == oc[i as int]);
                c48.set(i, c);
                i += 1;
            }
            proof {
                if k48@[b as int] != 0 {
                    let m = k48@[b as int] - 1;
                    assert(keys@[m] == b);
                }
                lemma_count_nz_update(k48@, b as int, 17u8, 256);
            }
            k48.set(b as usize, 17);
            let leaf = new_leaf(key, value);
            let ghost gl = leaf;
            c48.set(16, Some(Box::new(leaf)));
            let r = Node::Inner48 { prefix, keys: k48, children: c48, n: 17 };
            proof {
                assert(oc == kids(orig));
                let pc = pre + prefix@ + seq![b];
                assert(key@.subrange(0, pc.len() as int) =~= pc) by {
                    assert(key@.subrange(depth as int, d2 as int) == prefix@);
                }
                assert(wf(r, pre)) by {
                    reveal_with_fuel(wf, 2);
                    match r {
                        Node::Inner48 { prefix: p2, keys: ks, children: cs, n: n2 } => {
                            assert forall|c: int|
                                0 <= c < 256 && #[trigger] ks@[c] != 0 && ks@[c] - 1 < cs@.len()
                                    && cs@[ks@[c] - 1] is Some implies wf(
                                *cs@[ks@[c] - 1]->0,
                                pre + p2@ + seq![c as u8],
                            ) by {
                                let m = ks@[c] - 1;
                                if c != b {
                                    lemma_small_child(orig, pre, m);
                                }
                            }
                            assert forall|j: int| 0 <= j < n2 implies #[trigger] referenced(ks@, j) by {
                                if j < 16 {
                                    assert(ks@[keys@[j] as int] == j + 1);
                                } else {
                                    assert(ks@[b as int] == j + 1);
                                }
                            }
                            assert forall|j: int| 0 <= j < cs@.len() implies (#[trigger] cs@[j] is Some
                                <==> j < n2) by {
                                if j < 16 {
                                    assert(oc[j] is Some);
                                }
                            }
                            assert(table48(ks@, cs@, n2 as int));
                        },
                        _ => {},
                    }
                }
                assert forall|k: Seq<u8>|
                    #[trigger] lookup(r, k, depth as int) == if k == key@ {
                        Some(value)
                    } else {
                        lookup(orig, k, depth as int)
                    } by {
                    lemma_lookup_unfold(orig, k, depth as int);
                    lemma_lookup_unfold(r, k, depth as int);
                    if matches_at(k, depth as int, prefix@) && d2 < k.len() {
                        let c = k[d2 as int];
                        lemma_first_slot(keys@, c, 0, 16);
                        if c != b && k48@[c as int] != 0 {
                            lemma_first_slot_distinct(keys@, 16, k48@[c as int] - 1);
                        }
                        if c != b && k48@[c as int] == 0 {
                            let f = first_slot(keys@, c, 0, 16);
                            if f < 16 {
                                assert(k48@[keys@[f] as int] == f + 1);
                            }
                        }
                    }
                    if k == key@ {
                        assert(k.subrange(depth as int, d2 as int) == prefix@);
                    }
                }
            }
            r
        },
        _ => node,
    }
}

proof fn lemma_count_nz_zero(i: int)
    requires
        0 <= i <= 256,
    ensures
        count_nz(Seq::new(256, |j: int| 0u8), i) == 0,
    decreases i,
{
    if i > 0 {
        lemma_count_nz_zero(i - 1);
    }
}

/// Adds a leaf for `key` in slot `n` of a 48-slot node with room, mapping
/// the key's branch byte to it.
fn add48(node: Node, key: &[u8], depth: usize, value: u64) -> (r: Node)
    requires
        node is Inner48,
        count_of(node) < 48,
        add_pre(node, key@, depth as int),
        route(node, key@, depth as int) is None,
    ensures
        wf(r, key@.take(depth as int)),
        inserted(node, r, key@, depth as int, value),
        child_added(node, r),
{
    let ghost orig = node;
    let ghost pre = key@.take(depth as int);
    match node {
        Node::Inner48 { prefix, mut keys, mut children, n } => {
            assert(prefix@ == node_prefix(orig));
            assert(depth + prefix@.len() < key@.len());
            let pl = prefix.len();
            assert(key@.len() == key.len());
            let d2 = depth + pl;
            let b = key[d2];
            let ghost ok = keys@;
            let ghost oc = children@;
            proof {
                assert(table48(keys@, children@, n as int));
                lemma_count_nz_update(keys@, b as int, (n + 1) as u8, 256);
            }
            keys.set(b as usize, n + 1);
            let leaf = new_leaf(key, value);
            let ghost gl = leaf;
            children.set(n as usize, Some(Box::new(leaf)));
            let r = Node::Inner48 { prefix, keys, children, n: n + 1 };
            proof {
                let pc = pre + prefix@ + seq![b];
                assert(key@.subrange(0, pc.len() as int) =~= pc) by {
                    assert(key@.subrange(depth as int, d2 as int) == prefix@);
                }
                assert(wf(r, pre)) by {
                    reveal_with_fuel(wf, 2);
                    match r {
                        Node::Inner48 { prefix: p2, keys: ks, children: cs, n: n2 } => {
                            assert forall|c: int|
                                0 <= c < 256 && #[trigger] ks@[c] != 0 && ks@[c] - 1 < cs@.len()
                                    && cs@[ks@[c] - 1] is Some implies wf(
                                *cs@[ks@[c] - 1]->0,
                                pre + p2@ + seq![c as u8],
                            ) by {
                                if c != b {
                                    assert(ok[c] != 0);
                                }
                            }
                            assert forall|j: int| 0 <= j < n2 implies #[trigger] referenced(ks@, j) by {
                                if j < n {
                                    assert(referenced(ok, j));
                                    let c = choose|c: int| 0 <= c < 256 && #[trigger] ok[c] == j + 1;
                                    assert(ks@[c] == j + 1);
                                } else {
                                    assert(ks@[b as int] == j + 1);
                                }
                            }
                            assert forall|b1: int, b2: int|
                                0 <= b1 < 256 && 0 <= b2 < 256 && b1 != b2 && ks@[b1] != 0 implies #[trigger] ks@[b1]
                                != #[trigger] ks@[b2] by {
                                if b1 != b && b2 != b {
                                    assert(ok[b1] != ok[b2]);
                                } else if b1 == b {
                                    assert(ok[b2] <= n);
                                } else {
                                    assert(ok[b1] <= n);
                                }
                            }
                            assert(table48(ks@, cs@, n2 as int));
                        },
                        _ => {},
                    }
                }
                assert forall|k: Seq<u8>|
                    #[trigger] lookup(r, k, depth as int) == if k == key@ {
                        Some(value)
                    } else {
                        lookup(orig, k, depth as int)
                    } by {
                    lemma_lookup_unfold(orig, k, depth as int);
                    lemma_lookup_unfold(r, k, depth as int);
                    if k == key@ {
                        assert(k.subrange(depth as int, d2 as int) == prefix@);
                    }
                }
            }
            r
        },
        _ => node,
    }
}

/// Grows a full 48-slot node into a 256-slot node indexed by byte, with
/// the new leaf for `key` under its branch byte.
fn grow48(node: Node, key: &[u8], depth: usize, value: u64) -> (r: Node)
    requires
        node is Inner48,
        count_of(node) == 48,
        add_pre(node, key@, depth as int),
        route(node, key@, depth as int) is None,
    ensures
        wf(r, key@.take(depth as int)),
        inserted(node, r, key@, depth as int, value),
        child_added(node, r),
{
    let ghost orig = node;
    let ghost pre = key@.take(depth as int);
    match node {
        Node::Inner48 { prefix, keys, mut children, n } => {
            assert(prefix@ == node_prefix(orig));
            assert(depth + prefix@.len() < key@.len());
            let pl = prefix.len();
            assert(key@.len() == key.len());
            let d2 = depth + pl;
            let b = key[d2];
            proof {
                assert(table48(keys@, children@, 48));
                assert(forall|j: int| 0 <= j < 48 ==> #[trigger] children@[j] is Some);
            }
            let mut c256 = empty256();
            let ghost oc = children@;
            proof {
                lemma_count_some_zero(c256@, 256);
            }
            let mut byte: usize = 0;
            while byte < 256
                invariant
                    0 <= byte <= 256,
                    keys@.len() == 256,
                    oc.len() == 48,
                    children@.len() == 48,
                    c256@.len() == 256,
                    forall|b1: int, b2: int|
                        0 <= b1 < 256 && 0 <= b2 < 256 && b1 != b2 && keys@[b1] != 0 ==> #[trigger] keys@[b1]
                            != #[trigger] keys@[b2],
                    forall|c: int| 0 <= c < 256 ==> #[trigger] keys@[c] <= 48,
                    forall|c: int|
                        0 <= c < byte ==> #[trigger] c256@[c] == (if keys@[c] != 0 {
                            oc[keys@[c] - 1]
                        } else {
                            None
                        }),
                    forall|c: int| byte <= c < 256 ==> #[trigger] c256@[c] is None,
                    forall|c: int|
                        byte <= c < 256 && #[trigger] keys@[c] != 0 ==> children@[keys@[c] - 1]
                            == oc[keys@[c] - 1],
                    count_some(c256@, 256) == count_nz(keys@, byte as int),
                    forall|j: int| 0 <= j < 48 ==> #[trigger] oc[j] is Some,
                decreases 256 - byte,
            {
                let i = keys[byte];
                if i != 0 {
                    let c = take_slot(&mut children, i as usize - 1);
                    proof {
                        assert(c == oc[i - 1]);
                        assert(oc[i - 1] is Some);
                        lemma_count_some_update(c256@, byte as int, c, 256);
                    }
                    c256.set(byte, c);
                } else {
                }
                byte += 1;
            }
            proof {
                assert(c256@[b as int] is None) by {
                    assert(keys@[b as int] == 0);
                }
            }
            let leaf = new_leaf(key, value);
            let ghost gl = leaf;
            proof {
                lemma_count_some_update(c256@, b as int, Some(Box::new(gl)), 256);
            }
            c256.set(b as usize, Some(Box::new(leaf)));
            let r = Node::Inner256 { prefix, children: c256, n: 49 };
            proof {
                assert(oc == kids(orig));
                assert(keys@ == bytes_of(orig));
                let pc = pre + prefix@ + seq![b];
                assert(key@.subrange(0, pc.len() as int) =~= pc) by {
                    assert(key@.subrange(depth as int, d2 as int) == prefix@);
                }
                assert(wf(r, pre)) by {
                    reveal_with_fuel(wf, 2);
                    match r {
                        Node::Inner256 { prefix: p2, children: cs, n: n2 } => {
                            assert forall|c: int|
                                0 <= c < 256 && c < cs@.len() && cs@[c] is Some implies wf(
                                *#[trigger] cs@[c]->0,
                                pre + p2@ + seq![c as u8],
                            ) by {
                                if c != b {
                                    assert(keys@[c] != 0);
                                }
                            }
                        },
                        _ => {},
                    }
                }
                assert forall|k: Seq<u8>|
                    #[trigger] lookup(r, k, depth as int) == if k == key@ {
                        Some(value)
                    } else {
                        lookup(orig, k, depth as int)
                    } by {
                    lemma_lookup_unfold(orig, k, depth as int);
                    lemma_lookup_unfold(r, k, depth as int);
                    if k == key@ {
                        assert(k.subrange(depth as int, d2 as int) == prefix@);
                    }
                }
            }
            r
        },
        _ => node,
    }
}

/// Adds a leaf for `key` in the empty slot of its branch byte of a
/// 256-slot node.
fn add256(node: Node, key: &[u8], depth: usize, value: u64) -> (r: Node)
    requires
        node is Inner256,
        add_pre(node, key@, depth as int),
        kids(node)[key@[depth + node_prefix(node).len()] as int] is None,
    ensures
        wf(r, key@.take(depth as int)),
        inserted(node, r, key@, depth as int, value),
        child_added(node, r),
{
    let ghost orig = node;
    let ghost pre = key@.take(depth as int);
    match node {
        Node::Inner256 { prefix, mut children, n } => {
            assert(prefix@ == node_prefix(orig));
            assert(depth + prefix@.len() < key@.len());
            let pl = prefix.len();
            assert(key@.len() == key.len());
            let d2 = depth + pl;
            let b = key[d2] as usize;
            let ghost oc = children@;
            let leaf = new_leaf(key, value);
            let ghost gl = leaf;
            proof {
                lemma_count_some_update(children@, b as int, Some(Box::new(gl)), 256);
                lemma_count_some_bound(children@, 256, 256);
                lemma_count_some_bound(children@.update(b as int, Some(Box::new(gl))), 0, 256);
            }
            children.set(b, Some(Box::new(leaf)));
            let n2 = n.saturating_add(1);
            let r = Node::Inner256 { prefix, children, n: n2 };
            proof {
                assert(n2 == n + 1);
                let pc = pre + prefix@ + seq![b as u8];
                assert(key@.subrange(0, pc.len() as int) =~= pc) by {
                    assert(key@.subrange(depth as int, d2 as int) == prefix@);
                }
                assert(wf(r, pre)) by {
                    reveal_with_fuel(wf, 2);
                    match r {
                        Node::Inner256 { prefix: p2, children: cs, n: n3 } => {
                            assert forall|c: int|
                                0 <= c < 256 && c < cs@.len() && cs@[c] is Some implies wf(
                                *#[trigger] cs@[c]->0,
                                pre + p2@ + seq![c as u8],
                            ) by {
                                if c != b {
                                    assert(oc[c] is Some);
                                }
                            }
                        },
                        _ => {},
                    }
                }
                assert forall|k: Seq<u8>|
                    #[trigger] lookup(r, k, depth as int) == if k == key@ {
                        Some(value)
                    } else {
                        lookup(orig, k, depth as int)
                    } by {
                    lemma_lookup_unfold(orig, k, depth as int);
                    lemma_lookup_unfold(r, k, depth as int);
                    if k == key@ {
                        assert(k.subrange(depth as int, d2 as int) == prefix@);
                    }
                }
            }
            r
        },
        _ => node,
    }
}

/// A child is smaller than its node.
proof fn lemma_child_decreases(node: Node, i: int)
    requires
        !(node is Leaf),
        0 <= i < kids(node).len(),
        kids(node)[i] is Some,
    ensures
        decreases_to!(node => *kids(node)[i]->0),
{
    match node {
        Node::Inner4 { children, .. } => {
            assert(decreases_to!(node => children));
            assert(decreases_to!(children => children@));
            assert(decreases_to!(children@ => children@[i]));
            assert(decreases_to!(children@[i] => children@[i]->0));
        },
        Node::Inner16 { children, .. } => {
            assert(decreases_to!(node => children));
            assert(decreases_to!(children => children@));
            assert(decreases_to!(children@ => children@[i]));
            assert(decreases_to!(children@[i] => children@[i]->0));
        },
        Node::Inner48 { children, .. } => {
            assert(decreases_to!(node => children));
            assert(decreases_to!(children => children@));
            assert(decreases_to!(children@ => children@[i]));
            assert(decreases_to!(children@[i] => children@[i]->0));
        },
        Node::Inner256 { children, .. } => {
            assert(decreases_to!(node => children));
            assert(decreases_to!(children => children@));
            assert(decreases_to!(children@ => children@[i]));
            assert(decreases_to!(children@[i] => children@[i]->0));
        },
        _ => {},
    }
}

/// Keys that agree up to and including the branch byte are routed alike.
proof fn lemma_route_same_prefix(node: Node, k1: Seq<u8>, k2: Seq<u8>, d: int)
    requires
        !(node is Leaf),
        0 <= d,
        d + node_prefix(node).len() < k1.len(),
        d + node_prefix(node).len() < k2.len(),
        k1.subrange(0, d + node_prefix(node).len() + 1) == k2.subrange(
            0,
            d + node_prefix(node).len() + 1,
        ),
    ensures
        route(node, k1, d) == route(node, k2, d),
{
    let p = node_prefix(node);
    let e = d + p.len();
    assert(k1.subrange(d, e) =~= k1.subrange(0, e + 1).subrange(d, e));
    assert(k2.subrange(d, e) =~= k2.subrange(0, e + 1).subrange(d, e));
    assert(k1[e] == k1.subrange(0, e + 1)[e]);
    assert(k2[e] == k2.subrange(0, e + 1)[e]);
}

/// The child a key is routed to is well formed for the key's bytes up to
/// and including the branch byte.
proof fn lemma_route_child_wf(node: Node, pre: Seq<u8>, k0: Seq<u8>, i: int)
    requires
        wf(node, pre),
        !(node is Leaf),
        starts_with(k0, pre),
        route(node, k0, pre.len() as int) == Some(i),
        0 <= i < kids(node).len(),
        kids(node)[i] is Some,
    ensures
        wf(*kids(node)[i]->0, k0.take(pre.len() + node_prefix(node).len() + 1int)),
{
    reveal_with_fuel(wf, 2);
    let d = pre.len() as int;
    let p = node_prefix(node);
    let e = d + p.len();
    lemma_starts_with(k0, pre);
    assert(k0.subrange(d, e) == p);
    match node {
        Node::Inner4 { prefix, keys, children, n } => {
            lemma_first_slot(keys@, k0[e], 0, n as int);
            lemma_small_child(node, pre, i);
            assert(pre + prefix@ + seq![keys@[i]] =~= k0.take(e + 1));
        },
        Node::Inner16 { prefix, keys, children, n } => {
            lemma_first_slot(keys@, k0[e], 0, n as int);
            lemma_small_child(node, pre, i);
            assert(pre + prefix@ + seq![keys@[i]] =~= k0.take(e + 1));
        },
        Node::Inner48 { prefix, keys, children, n } => {
            let b = k0[e] as int;
            assert(table48(keys@, children@, n as int));
            assert(keys@[b] != 0);
            assert(pre + prefix@ + seq![b as u8] =~= k0.take(e + 1));
        },
        Node::Inner256 { prefix, children, n } => {
            assert(pre + prefix@ + seq![i as u8] =~= k0.take(e + 1));
        },
        _ => {},
    }
}

/// Replacing the child of the slot a key is routed to by a subtree well
/// formed for that key's bytes keeps the node well formed.
proof fn lemma_wf_update_child(node: Node, new: Node, i: int, c2: Node, pre: Seq<u8>, k0: Seq<u8>)
    requires
        wf(node, pre),
        same_routing(node, new),
        0 <= i < kids(node).len(),
        kids(node)[i] is Some,
        kids(new) == kids(node).update(i, Some(Box::new(c2))),
        starts_with(k0, pre),
        route(node, k0, pre.len() as int) == Some(i),
        wf(c2, k0.take(pre.len() + node_prefix(node).len() + 1int)),
    ensures
        wf(new, pre),
{
    reveal_with_fuel(wf, 2);
    let d = pre.len() as int;
    let p = node_prefix(node);
    let e = d + p.len();
    lemma_starts_with(k0, pre);
    assert(k0.subrange(d, e) == p);
    match node {
        Node::Inner4 { prefix, keys, children, n } => match new {
            Node::Inner4 { prefix: p2, keys: ks, children: cs, n: n2 } => {
                lemma_first_slot(keys@, k0[e], 0, n as int);
                assert(pre + prefix@ + seq![keys@[i]] =~= k0.take(e + 1));
                assert(small_slots(keys@, children@, n as int));
                assert forall|j: int|
                    0 <= j < n2 && j < cs@.len() && cs@[j] is Some implies wf(
                    *#[trigger] cs@[j]->0,
                    pre + p2@ + seq![ks@[j]],
                ) by {
                    if j != i {
                        assert(children@[j] is Some);
                    }
                }
                assert(small_slots(ks@, cs@, n2 as int));
            },
            _ => {},
        },
        Node::Inner16 { prefix, keys, children, n } => match new {
            Node::Inner16 { prefix: p2, keys: ks, children: cs, n: n2 } => {
                lemma_first_slot(keys@, k0[e], 0, n as int);
                assert(pre + prefix@ + seq![keys@[i]] =~= k0.take(e + 1));
                assert(small_slots(keys@, children@, n as int));
                assert forall|j: int|
                    0 <= j < n2 && j < cs@.len() && cs@[j] is Some implies wf(
                    *#[trigger] cs@[j]->0,
                    pre + p2@ + seq![ks@[j]],
                ) by {
                    if j != i {
                        assert(children@[j] is Some);
                    }
                }
                assert(small_slots(ks@, cs@, n2 as int));
            },
            _ => {},
        },
        Node::Inner48 { prefix, keys, children, n } => match new {
            Node::Inner48 { prefix: p2, keys: ks, children: cs, n: n2 } => {
                let b0 = k0[e] as int;
                assert(table48(keys@, children@, n as int));
                assert(pre + prefix@ + seq![b0 as u8] =~= k0.take(e + 1));
                assert forall|b: int|
                    0 <= b < 256 && #[trigger] ks@[b] != 0 && ks@[b] - 1 < cs@.len() && cs@[ks@[b]
                        - 1] is Some implies wf(
                    *cs@[ks@[b] - 1]->0,
                    pre + p2@ + seq![b as u8],
                ) by {
                    if b != b0 {
                        assert(keys@[b] != keys@[b0]);
                    }
                }
                assert forall|j: int| 0 <= j < cs@.len() implies (#[trigger] cs@[j] is Some <==> j
                    < n2) by {
                    assert(children@[j] is Some <==> j < n);
                }
                assert(table48(ks@, cs@, n2 as int));
            },
            _ => {},
        },
        Node::Inner256 { prefix, children, n } => match new {
            Node::Inner256 { prefix: p2, children: cs, n: n2 } => {
                assert(pre + prefix@ + seq![i as u8] =~= k0.take(e + 1));
                lemma_count_some_update(children@, i, Some(Box::new(c2)), 256);
                assert forall|b: int|
                    0 <= b < 256 && b < cs@.len() && cs@[b] is Some implies wf(
                    *#[trigger] cs@[b]->0,
                    pre + p2@ + seq![b as u8],
                ) by {
                    if b != i {
                        assert(children@[b] is Some);
                    }
                }
            },
            _ => {},
        },
        _ => {},
    }
}

/// Whether a node is a leaf.
fn is_leaf(node: &Node) -> (r: bool)
    ensures
        r == (*node is Leaf),
{
    match node {
        Node::Leaf { .. } => true,
        _ => false,
    }
}

/// Length of an inner node's prefix.
fn prefix_len(node: &Node) -> (r: usize)
    ensures
        r == node_prefix(*node).len(),
{
    match node {
        Node::Leaf { .. } => 0,
        Node::Inner4 { prefix, .. } => prefix.len(),
        Node::Inner16 { prefix, .. } => prefix.len(),
        Node::Inner48 { prefix, .. } => prefix.len(),
        Node::Inner256 { prefix, .. } => prefix.len(),
    }
}

/// Whether `key` holds the node's prefix at `depth`.
fn prefix_matches(node: &Node, key: &[u8], depth: usize) -> (r: bool)
    ensures
        r == matches_at(key@, depth as int, node_prefix(*node)),
{
    match node {
        Node::Leaf { .. } => {
            if depth <= key.len() {
                assert(key@.subrange(depth as int, depth as int) =~= Seq::<u8>::empty());
                true
            } else {
                false
            }
        },
        Node::Inner4 { prefix, .. } => matches_prefix(key, depth, prefix.as_slice()),
        Node::Inner16 { prefix, .. } => matches_prefix(key, depth, prefix.as_slice()),
        Node::Inner48 { prefix, .. } => matches_prefix(key, depth, prefix.as_slice()),
        Node::Inner256 { prefix, .. } => matches_prefix(key, depth, prefix.as_slice()),
    }
}

/// Slot `key` is routed to from a well-formed inner node at `depth`.
fn find_route(node: &Node, key: &[u8], depth: usize) -> (r: Option<usize>)
    requires
        !(*node is Leaf),
        wf(*node, key@.take(depth as int)),
        matches_at(key@, depth as int, node_prefix(*node)),
        depth + node_prefix(*node).len() < key@.len(),
    ensures
        r is Some ==> route(*node, key@, depth as int) == Some(r->0 as int),
        r is Some ==> r->0 < kids(*node).len(),
        r is None ==> route(*node, key@, depth as int) is None,
{
    let pl = prefix_len(node);
    assert(key@.len() == key.len());
    let d2 = depth + pl;
    let b = key[d2];
    assert(b == key@[depth + node_prefix(*node).len()]);
    match node {
        Node::Inner4 { keys, n, children, .. } => {
            assert(children@.len() == 4 && keys@.len() == 4);
            let i = find_small(keys, *n, b);
            if i < *n as usize {
                assert(first_slot(keys@, key@[depth + node_prefix(*node).len()], 0, *n as int) == i);
                assert(count_of(*node) == *n);
                assert(route(*node, key@, depth as int) == Some(i as int));
                assert(kids(*node) == children@);
                assert(*n <= 4);
                Some(i)
            } else {
                None
            }
        },
        Node::Inner16 { keys, n, children, .. } => {
            assert(children@.len() == 16 && keys@.len() == 16);
            assert(kids(*node) == children@);
            assert(*n <= 16);
            let res = find_child_byte16(keys, *n, b);
            assert(count_of(*node) == *n);
            res
        },
        Node::Inner48 { keys, .. } => {
            let idx = keys[b as usize];
            if idx != 0 {
                proof {
                    assert(table48(keys@, kids(*node), count_of(*node)));
                    assert(kids(*node).len() == 48);
                    assert(keys@[b as int] <= count_of(*node) <= 48);
                }
                Some(idx as usize - 1)
            } else {
                None
            }
        },
        Node::Inner256 { children, .. } => {
            assert(children@.len() == 256);
            Some(b as usize)
        },
        Node::Leaf { .. } => None,
    }
}

/// Whether slot `i` of an inner node is occupied.
fn slot_occupied(node: &Node, i: usize) -> (r: bool)
    requires
        i < kids(*node).len(),
    ensures
        r == kids(*node)[i as int] is Some,
{
    match node {
        Node::Leaf { .. } => false,
        Node::Inner4 { children, .. } => children[i].is_some(),
        Node::Inner16 { children, .. } => children[i].is_some(),
        Node::Inner48 { children, .. } => children[i].is_some(),
        Node::Inner256 { children, .. } => children[i].is_some(),
    }
}

/// Takes the child out of occupied slot `i`.
fn take_child(node: Node, i: usize) -> (r: (Node, Node))
    requires
        !(node is Leaf),
        i < kids(node).len(),
        kids(node)[i as int] is Some,
    ensures
        same_routing(node, r.0),
        kids(r.0) == kids(node).update(i as int, None),
        r.1 == *kids(node)[i as int]->0,
{
    match node {
        Node::Inner4 { prefix, keys, mut children, n } => {
            let c = take_slot(&mut children, i);
            (Node::Inner4 { prefix, keys, children, n }, *c.unwrap())
        },
        Node::Inner16 { prefix, keys, mut children, n } => {
            let c = take_slot(&mut children, i);
            (Node::Inner16 { prefix, keys, children, n }, *c.unwrap())
        },
        Node::Inner48 { prefix, keys, mut children, n } => {
            let c = take_slot(&mut children, i);
            (Node::Inner48 { prefix, keys, children, n }, *c.unwrap())
        },
        Node::Inner256 { prefix, mut children, n } => {
            let c = take_slot(&mut children, i);
            (Node::Inner256 { prefix, children, n }, *c.unwrap())
        },
        Node::Leaf { key, value } => (Node::Leaf { key, value }, Node::Leaf { key: Vec::new(), value }),
    }
}

/// Puts `c` in slot `i`.
fn put_child(node: Node, i: usize, c: Node) -> (r: Node)
    requires
        !(node is Leaf),
        i < kids(node).len(),
    ensures
        same_routing(node, r),
        kids(r) == kids(node).update(i as int, Some(Box::new(c))),
{
    match node {
        Node::Inner4 { prefix, keys, mut children, n } => {
            children.set(i, Some(Box::new(c)));
            Node::Inner4 { prefix, keys, children, n }
        },
        Node::Inner16 { prefix, keys, mut children, n } => {
            children.set(i, Some(Box::new(c)));
            Node::Inner16 { prefix, keys, children, n }
        },
        Node::Inner48 { prefix, keys, mut children, n } => {
            children.set(i, Some(Box::new(c)));
            Node::Inner48 { prefix, keys, children, n }
        },
        Node::Inner256 { prefix, mut children, n } => {
            children.set(i, Some(Box::new(c)));
            Node::Inner256 { prefix, children, n }
        },
        Node::Leaf { key, value } => Node::Leaf { key, value },
    }
}

/// Node kind: 0 for a leaf, else the slot capacity's tag (4, 16, 48, 255
/// for 256), and whether the node has room for another child.
fn kind_room(node: &Node) -> (r: (u8, bool))
    ensures
        r.0 == 0 <==> *node is Leaf,
        r.0 == 4 <==> *node is Inner4,
        r.0 == 16 <==> *node is Inner16,
        r.0 == 48 <==> *node is Inner48,
        r.0 == 255 <==> *node is Inner256,
        *node is Inner4 ==> r.1 == (count_of(*node) < 4),
        *node is Inner16 ==> r.1 == (count_of(*node) < 16),
        *node is Inner48 ==> r.1 == (count_of(*node) < 48),
        *node is Inner256 ==> r.1,
{
    match node {
        Node::Leaf { .. } => (0, false),
        Node::Inner4 { n, .. } => (4, *n < 4),
        Node::Inner16 { n, .. } => (16, *n < 16),
        Node::Inner48 { n, .. } => (48, *n < 48),
        Node::Inner256 { .. } => (255, true),
    }
}

/// Inserts `key` (whose first `depth` bytes led here) with `value` below
/// `node`, growing, splitting or descending as the node requires, and
/// counts a new key in `len`.
fn insert_rec(node: Node, key: &[u8], depth: usize, value: u64, len: &mut usize) -> (r: Node)
    requires
        depth <= key@.len(),
        wf(node, key@.take(depth as int)),
        compatible(node, key@, depth as int),
        *old(len) < usize::MAX,
    ensures
        wf(r, key@.take(depth as int)),
        inserted(node, r, key@, depth as int, value),
        lookup(node, key@, depth as int) is Some ==> value_replaced(node, r, key@, depth as int, value),
        lookup(node, key@, depth as int) is None ==> key_added(node, r, key@, depth as int),
        *final(len) == *old(len) + if lookup(node, key@, depth as int) is Some {
            0int
        } else {
            1int
        },
    decreases node,
{
    let ghost orig = node;
    let ghost pre = key@.take(depth as int);
    if is_leaf(&node) {
        match node {
            Node::Leaf { key: lk, value: old_v } => {
                proof {
                    assert(lookup(orig, lk@, depth as int) is Some);
                }
                return insert_leaf(lk, old_v, key, depth, value, len);
            },
            _ => {
                return node;
            },
        }
    }
    if !prefix_matches(&node, key, depth) {
        proof {
            lemma_lookup_unfold(orig, key@, depth as int);
        }
        return insert_split(node, key, depth, value, len);
    }
    let pl = prefix_len(&node);
    assert(key@.len() == key.len());
    let d2 = depth + pl;
    if d2 >= key.len() {
        proof {
            let k = lemma_nonempty(orig, pre);
            lemma_starts_with(k, pre + node_prefix(orig));
            assert(key@ =~= pre + node_prefix(orig)) by {
                assert(key@.subrange(depth as int, d2 as int) == node_prefix(orig));
            }
            assert(k.subrange(0, key@.len() as int) =~= key@);
            assert(proper_prefix(key@, k));
        }
        return node;
    }
    proof {
        lemma_starts_with(key@, pre);
        assert(starts_with(key@, pre)) by {
            assert(key@.subrange(0, depth as int) =~= pre);
        }
        lemma_lookup_unfold(orig, key@, depth as int);
    }
    let slot = find_route(&node, key, depth);
    if let Some(i) = slot {
        if slot_occupied(&node, i) {
            let (taken, child) = take_child(node, i);
            proof {
                lemma_child_decreases(orig, i as int);
                lemma_route_child_wf(orig, pre, key@, i as int);
                let pc = key@.take(d2 + 1);
                assert forall|k: Seq<u8>| #[trigger] lookup(child, k, d2 + 1) is Some implies !proper_prefix(
                    k,
                    key@,
                ) && !proper_prefix(key@, k) by {
                    lemma_lookup_prefix(child, pc, k);
                    lemma_starts_with(k, pc);
                    assert(k.subrange(0, d2 + 1) =~= key@.subrange(0, d2 + 1));
                    lemma_route_same_prefix(orig, k, key@, depth as int);
                    lemma_lookup_unfold(orig, k, depth as int);
                    assert(lookup(orig, k, depth as int) is Some);
                }
            }
            let c2 = insert_rec(child, key, d2 + 1, value, len);
            let r = put_child(taken, i, c2);
            proof {
                assert(kids(r) == kids(orig).update(i as int, Some(Box::new(c2))));
                lemma_update_child(orig, r, i as int, c2, depth as int);
                lemma_wf_update_child(orig, r, i as int, c2, pre, key@);
                assert forall|k: Seq<u8>|
                    #[trigger] lookup(r, k, depth as int) == if k == key@ {
                        Some(value)
                    } else {
                        lookup(orig, k, depth as int)
                    } by {
                    lemma_lookup_unfold(orig, k, depth as int);
                    assert(lookup(c2, k, d2 + 1) == if k == key@ {
                        Some(value)
                    } else {
                        lookup(child, k, d2 + 1)
                    });
                }
                if lookup(orig, key@, depth as int) is Some {
                    assert(route(orig, key@, depth as int) == Some(i as int));
                    assert(lookup(child, key@, d2 + 1) is Some);
                    assert(kids(r)[i as int] == Some(Box::new(c2)));
                    assert(slot_swapped(orig, r, i as int));
                    assert(value_replaced(orig, r, key@, depth as int, value));
                }
                if lookup(orig, key@, depth as int) is None {
                    assert(route(orig, key@, depth as int) == Some(i as int));
                    assert(lookup(child, key@, d2 + 1) is None);
                    assert(kids(r)[i as int] == Some(Box::new(c2)));
                    assert(slot_swapped(orig, r, i as int));
                    assert(key_added(orig, r, key@, depth as int));
                }
            }
            return r;
        }
    }
    let (kind, room) = kind_room(&node);
    proof {
        if kind == 255 {
            assert(slot == Some(key@[d2 as int] as usize));
        }
    }
    *len += 1;
    if room {
        if kind == 4 || kind == 16 {
            small_add(node, key, depth, value)
        } else if kind == 48 {
            add48(node, key, depth, value)
        } else {
            add256(node, key, depth, value)
        }
    } else if kind == 4 {
        grow4(node, key, depth, value)
    } else if kind == 16 {
        grow16(node, key, depth, value)
    } else {
        grow48(node, key, depth, value)
    }
}

// ---------------------------------------------------------------------------
// Delete
// ---------------------------------------------------------------------------

/// Two nodes find the same value for every key from depth `d`.
spec fn same_lookups(a: Node, b: Node, d: int) -> bool {
    forall|k: Seq<u8>| #[trigger] lookup(b, k, d) == lookup(a, k, d)
}

/// Child count of an inner node.
fn node_count(node: &Node) -> (r: u16)
    ensures
        r == count_of(*node),
{
    match node {
        Node::Leaf { .. } => 0,
        Node::Inner4 { n, .. } => *n as u16,
        Node::Inner16 { n, .. } => *n as u16,
        Node::Inner48 { n, .. } => *n as u16,
        Node::Inner256 { n, .. } => *n,
    }
}

/// A 4- or 16-slot node `r` holding the first `n` slots of the 4- or
/// 16-slot node `node` (and nothing else) is well formed and finds the same
/// values.
proof fn lemma_small_copy(node: Node, r: Node, pre: Seq<u8>)
    requires
        node is Inner4 || node is Inner16,
        r is Inner4 || r is Inner16,
        r is Inner4 ==> bytes_of(r).len() == 4 && kids(r).len() == 4,
        r is Inner16 ==> bytes_of(r).len() == 16 && kids(r).len() == 16,
        wf(node, pre),
        count_of(r) == count_of(node),
        count_of(node) <= kids(r).len(),
        node_prefix(r) == node_prefix(node),
        forall|j: int|
            0 <= j < count_of(node) ==> bytes_of(r)[j] == bytes_of(node)[j] && kids(r)[j] == kids(
                node,
            )[j],
        forall|j: int| count_of(node) <= j < kids(r).len() ==> kids(r)[j] is None,
    ensures
        wf(r, pre),
        same_lookups(node, r, pre.len() as int),
{
    let n = count_of(node);
    let ks = bytes_of(node);
    let ks2 = bytes_of(r);
    assert(wf(r, pre)) by {
        reveal_with_fuel(wf, 2);
        assert forall|i: int, j: int| 0 <= i < j < n implies ks2[i] != ks2[j] by {
            match node {
                Node::Inner4 { keys, children, n, .. } => {
                    assert(small_slots(keys@, children@, n as int));
                },
                Node::Inner16 { keys, children, n, .. } => {
                    assert(small_slots(keys@, children@, n as int));
                },
                _ => {},
            }
        }
        assert forall|i: int|
            0 <= i < n && i < kids(r).len() && kids(r)[i] is Some implies wf(
            *#[trigger] kids(r)[i]->0,
            pre + node_prefix(r) + seq![ks2[i]],
        ) by {
            lemma_small_child(node, pre, i);
        }
        assert forall|i: int| 0 <= i < kids(r).len() implies (#[trigger] kids(r)[i] is Some <==> i
            < n) by {
            if i < n {
                lemma_small_child(node, pre, i);
            }
        }
        match r {
            Node::Inner4 { prefix, keys, children, n } => {
                assert(small_slots(keys@, children@, n as int));
            },
            Node::Inner16 { prefix, keys, children, n } => {
                assert(small_slots(keys@, children@, n as int));
            },
            _ => {},
        }
    }
    let d = pre.len() as int;
    assert forall|k: Seq<u8>| #[trigger] lookup(r, k, d) == lookup(node, k, d) by {
        lemma_lookup_unfold(node, k, d);
        lemma_lookup_unfold(r, k, d);
        let p = node_prefix(node);
        let d2 = d + p.len();
        if matches_at(k, d, p) && d2 < k.len() {
            lemma_first_slot_ext(ks, ks2, k[d2], n);
        }
    }
}

/// Shrinks a 16-slot node with at most four children into a 4-slot node.
fn shrink16(node: Node, Ghost(pre): Ghost<Seq<u8>>) -> (r: Node)
    requires
        node is Inner16,
        count_of(node) <= 4,
        wf(node, pre),
    ensures
        wf(r, pre),
        same_lookups(node, r, pre.len() as int),
{
    let ghost orig = node;
    match node {
        Node::Inner16 { prefix, keys, mut children, n } => {
            let mut k4: Vec<u8> = vec![0u8; 4];
            let mut c4: Vec<Option<Box<Node>>> = vec![None, None, None, None];
            let ghost oc = children@;
            let mut i: usize = 0;
            while i < n as usize
                invariant
                    0 <= i <= n <= 4,
                    keys@.len() == 16,
                    oc.len() == 16,
                    k4@.len() == 4,
                    c4@.len() == 4,
                    children@.len() == 16,
                    forall|j: int| 0 <= j < i ==> k4@[j] == keys@[j],
                    forall|j: int| 0 <= j < i ==> c4@[j] == oc[j],
                    forall|j: int| i <= j < 16 ==> children@[j] == oc[j],
                    forall|j: int| i <= j < 4 ==> c4@[j] is None,
                decreases n - i,
            {
                let kb = keys[i];
                k4.set(i, kb);
                let c = take_slot(&mut children, i);
                assert(c == oc[i as int]);
                c4.set(i, c);
                i += 1;
            }
            let r = Node::Inner4 { prefix, keys: k4, children: c4, n };
            proof {
                assert(oc == kids(orig));
                lemma_small_copy(orig, r, pre);
            }
            r
        },
        _ => node,
    }
}

/// Removing slot `i` from distinct slot bytes: every other byte is found one
/// slot earlier past `i`, the removed byte no more.
proof fn lemma_first_slot_remove(ks: Seq<u8>, ks2: Seq<u8>, n: int, i: int, c: u8)
    requires
        0 <= i < n <= ks.len(),
        n - 1 <= ks2.len(),
        forall|a: int, b: int| 0 <= a < b < n ==> ks[a] != ks[b],
        forall|m: int| 0 <= m < i ==> ks2[m] == ks[m],
        forall|m: int| i <= m < n - 1 ==> ks2[m] == ks[m + 1],
    ensures
        first_slot(ks2, c, 0, n - 1) == ({
            let f = first_slot(ks, c, 0, n);
            if f < n && f != i {
                if f < i {
                    f
                } else {
                    f - 1
                }
            } else {
                n - 1
            }
        }),
{
    lemma_first_slot(ks, c, 0, n);
    let f = first_slot(ks, c, 0, n);
    if f < n && f != i {
        let g = if f < i {
            f
        } else {
            f - 1
        };
        assert forall|m: int| 0 <= m < g implies ks2[m] != c by {
            if m < i {
                assert(ks[m] != c);
            } else {
                assert(ks[m + 1] != c);
            }
        }
        lemma_first_slot_is(ks2, c, n - 1, g);
    } else {
        assert forall|m: int| 0 <= m < n - 1 implies ks2[m] != c by {
            if m < i {
                if f == i {
                    assert(ks[m] != ks[i]);
                } else {
                    assert(ks[m] != c);
                }
            } else {
                if f == i {
                    assert(ks[m + 1] != ks[i]);
                } else {
                    assert(ks[m + 1] != c);
                }
            }
        }
        lemma_first_slot_is(ks2, c, n - 1, n - 1);
    }
}

/// Removes the (already emptied) slot `i` of a 4- or 16-slot node, moving
/// the later slots one place down.
fn small_remove(node: Node, i: usize, Ghost(orig): Ghost<Node>, Ghost(pre): Ghost<Seq<u8>>) -> (r: Node)
    requires
        orig is Inner4 || orig is Inner16,
        wf(orig, pre),
        same_routing(orig, node),
        0 <= i < count_of(orig),
        kids(node) == kids(orig).update(i as int, None),
    ensures
        r is Inner4 <==> orig is Inner4,
        r is Inner16 <==> orig is Inner16,
        count_of(r) == count_of(orig) - 1,
        count_of(r) > 0 ==> wf(r, pre),
        forall|k: Seq<u8>|
            #[trigger] lookup(r, k, pre.len() as int) == if route(orig, k, pre.len() as int) == Some(
                i as int,
            ) {
                None
            } else {
                lookup(orig, k, pre.len() as int)
            },
{
    match node {
        Node::Inner4 { prefix, mut keys, mut children, n } => {
            let ghost ok = keys@;
            let ghost oc = kids(orig);
            proof {
                assert(small_slots(bytes_of(orig), kids(orig), count_of(orig)));
            }
            let mut j: usize = i;
            while j < n as usize - 1
                invariant
                    i <= j <= n - 1,
                    1 <= n <= 4,
                    ok.len() == 4,
                    oc.len() == 4,
                    keys@.len() == 4,
                    children@.len() == 4,
                    forall|m: int| 0 <= m < i ==> keys@[m] == ok[m] && children@[m] == oc[m],
                    forall|m: int| i <= m < j ==> keys@[m] == ok[m + 1] && children@[m] == oc[m + 1],
                    children@[j as int] is None,
                    forall|m: int| j < m < 4 ==> keys@[m] == ok[m] && children@[m] == oc[m],
                decreases n - 1 - j,
            {
                let kb = keys[j + 1];
                keys.set(j, kb);
                let c = take_slot(&mut children, j + 1);
                children.set(j, c);
                j += 1;
            }
            children.set(n as usize - 1, None);
            let r = Node::Inner4 { prefix, keys, children, n: n - 1 };
            proof {
                assert forall|m: int| n - 1 <= m < 4 implies kids(r)[m] is None by {
                    if m >= n {
                        assert(oc[m] is None);
                    }
                }
                lemma_small_remove(orig, r, i as int, pre);
            }
            r
        },
        Node::Inner16 { prefix, mut keys, mut children, n } => {
            let ghost ok = keys@;
            let ghost oc = kids(orig);
            proof {
                assert(small_slots(bytes_of(orig), kids(orig), count_of(orig)));
            }
            let mut j: usize = i;
            while j < n as usize - 1
                invariant
                    i <= j <= n - 1,
                    1 <= n <= 16,
                    ok.len() == 16,
                    oc.len() == 16,
                    keys@.len() == 16,
                    children@.len() == 16,
                    forall|m: int| 0 <= m < i ==> keys@[m] == ok[m] && children@[m] == oc[m],
                    forall|m: int| i <= m < j ==> keys@[m] == ok[m + 1] && children@[m] == oc[m + 1],
                    children@[j as int] is None,
                    forall|m: int| j < m < 16 ==> keys@[m] == ok[m] && children@[m] == oc[m],
                decreases n - 1 - j,
            {
                let kb = keys[j + 1];
                keys.set(j, kb);
                let c = take_slot(&mut children, j + 1);
                children.set(j, c);
                j += 1;
            }
            children.set(n as usize - 1, None);
            let r = Node::Inner16 { prefix, keys, children, n: n - 1 };
            proof {
                assert forall|m: int| n - 1 <= m < 16 implies kids(r)[m] is None by {
                    if m >= n {
                        assert(oc[m] is None);
                    }
                }
                lemma_small_remove(orig, r, i as int, pre);
            }
            r
        },
        _ => node,
    }
}

/// A 4- or 16-slot node `r` holding the slots of `orig` but slot `i`, in
/// order.
proof fn lemma_small_remove(orig: Node, r: Node, i: int, pre: Seq<u8>)
    requires
        orig is Inner4 || orig is Inner16,
        r is Inner4 <==> orig is Inner4,
        r is Inner16 <==> orig is Inner16,
        wf(orig, pre),
        bytes_of(r).len() == bytes_of(orig).len(),
        kids(r).len() == kids(orig).len(),
        0 <= i < count_of(orig),
        count_of(r) == count_of(orig) - 1,
        node_prefix(r) == node_prefix(orig),
        forall|m: int|
            0 <= m < i ==> bytes_of(r)[m] == bytes_of(orig)[m] && kids(r)[m] == kids(orig)[m],
        forall|m: int|
            i <= m < count_of(orig) - 1 ==> bytes_of(r)[m] == bytes_of(orig)[m + 1] && kids(r)[m]
                == kids(orig)[m + 1],
        forall|m: int| count_of(orig) - 1 <= m < kids(r).len() ==> kids(r)[m] is None,
    ensures
        count_of(r) > 0 ==> wf(r, pre),
        forall|k: Seq<u8>|
            #[trigger] lookup(r, k, pre.len() as int) == if route(orig, k, pre.len() as int) == Some(
                i,
            ) {
                None
            } else {
                lookup(orig, k, pre.len() as int)
            },
{
    let n = count_of(orig);
    let ks = bytes_of(orig);
    let ks2 = bytes_of(r);
    assert(small_slots(ks, kids(orig), n)) by {
        match orig {
            Node::Inner4 { keys, children, n, .. } => {},
            Node::Inner16 { keys, children, n, .. } => {},
            _ => {},
        }
    }
    if n - 1 > 0 {
        assert(wf(r, pre)) by {
            reveal_with_fuel(wf, 2);
            assert forall|a: int, b: int| 0 <= a < b < n - 1 implies ks2[a] != ks2[b] by {
                let a1 = if a < i {
                    a
                } else {
                    a + 1
                };
                let b1 = if b < i {
                    b
                } else {
                    b + 1
                };
                assert(ks[a1] != ks[b1]);
            }
            assert forall|m: int|
                0 <= m < n - 1 && m < kids(r).len() && kids(r)[m] is Some implies wf(
                *#[trigger] kids(r)[m]->0,
                pre + node_prefix(r) + seq![ks2[m]],
            ) by {
                if m < i {
                    lemma_small_child(orig, pre, m);
                } else {
                    lemma_small_child(orig, pre, m + 1);
                }
            }
            assert forall|m: int| 0 <= m < kids(r).len() implies (#[trigger] kids(r)[m] is Some
                <==> m < n - 1) by {
                if m < i {
                    assert(kids(orig)[m] is Some);
                } else if m < n - 1 {
                    assert(kids(orig)[m + 1] is Some);
                }
            }
            match r {
                Node::Inner4 { prefix, keys, children, n } => {
                    assert(small_slots(keys@, children@, n as int));
                },
                Node::Inner16 { prefix, keys, children, n } => {
                    assert(small_slots(keys@, children@, n as int));
                },
                _ => {},
            }
        }
    }
    let d = pre.len() as int;
    assert forall|k: Seq<u8>|
        #[trigger] lookup(r, k, d) == if route(orig, k, d) == Some(i) {
            None
        } else {
            lookup(orig, k, d)
        } by {
        lemma_lookup_unfold(orig, k, d);
        lemma_lookup_unfold(r, k, d);
        let p = node_prefix(orig);
        let d2 = d + p.len();
        if matches_at(k, d, p) && d2 < k.len() {
            lemma_first_slot_remove(ks, ks2, n, i, k[d2]);
            lemma_first_slot(ks, k[d2], 0, n);
        }
    }
}

/// Position of the first entry equal to `v`, if any.
fn find_byte(keys: &Vec<u8>, v: u8) -> (r: Option<usize>)
    ensures
        r matches Some(p) ==> p < keys@.len() && keys@[p as int] == v,
        r is None ==> forall|p: int| 0 <= p < keys@.len() ==> keys@[p] != v,
{
    let mut p: usize = 0;
    while p < keys.len()
        invariant
            0 <= p <= keys@.len(),
            forall|q: int| 0 <= q < p ==> keys@[q] != v,
        decreases keys@.len() - p,
    {
        if keys[p] == v {
            return Some(p);
        }
        p += 1;
    }
    None
}

/// Removes the (already emptied) slot of byte `b` from a 48-slot node: the
/// last slot's child moves into the hole and its byte is renumbered.
fn remove48(node: Node, b: usize, Ghost(orig): Ghost<Node>, Ghost(pre): Ghost<Seq<u8>>) -> (r: Node)
    requires
        orig is Inner48,
        wf(orig, pre),
        same_routing(orig, node),
        0 <= b < 256,
        bytes_of(orig)[b as int] != 0,
        kids(node) == kids(orig).update(bytes_of(orig)[b as int] - 1, None),
    ensures
        r is Inner48,
        count_of(r) == count_of(orig) - 1,
        count_of(r) > 0 ==> wf(r, pre),
        count_of(r) == 0 ==> forall|k: Seq<u8>| #[trigger] lookup(r, k, pre.len() as int) is None,
        forall|k: Seq<u8>|
            #[trigger] lookup(r, k, pre.len() as int) == if route(orig, k, pre.len() as int) == Some(
                bytes_of(orig)[b as int] - 1,
            ) {
                None
            } else {
                lookup(orig, k, pre.len() as int)
            },
{
    match node {
        Node::Inner48 { prefix, mut keys, mut children, mut n } => {
            let ghost ok = keys@;
            let ghost oc = kids(orig);
            let ghost on = n as int;
            proof {
                assert(table48(ok, oc, on));
            }
            let idx = keys[b];
            let last = n as usize - 1;
            let ghost lb_g: int = -1;
            if idx as usize - 1 != last {
                let c = take_slot(&mut children, last);
                children.set(idx as usize - 1, c);
                proof {
                    assert(referenced(ok, last as int));
                }
                match find_byte(&keys, last as u8 + 1) {
                    Some(lb) => {
                        proof {
                            lb_g = lb as int;
                        }
                        keys.set(lb, idx);
                    },
                    None => {
                        proof {
                            let w = choose|c: int| 0 <= c < 256 && #[trigger] ok[c] == last + 1;
                            assert(ok[w] == last + 1);
                        }
                    },
                }
            }
            keys.set(b, 0);
            children.set(last, None);
            n -= 1;
            let r = Node::Inner48 { prefix, keys, children, n };
            proof {
                let i = idx - 1;
                let ks2 = keys@;
                let cs2 = children@;
                let d = pre.len() as int;
                if i != last {
                    assert(0 <= lb_g < 256 && ok[lb_g] == last + 1);
                    assert(lb_g != b);
                    lemma_count_nz_update(ok, lb_g, idx, 256);
                    lemma_count_nz_update(ok.update(lb_g, idx), b as int, 0, 256);
                    assert(ks2 == ok.update(lb_g, idx).update(b as int, 0));
                    assert(cs2 == oc.update(i, oc[last as int]).update(last as int, None));
                } else {
                    lemma_count_nz_update(ok, b as int, 0, 256);
                    assert(ks2 == ok.update(b as int, 0));
                    assert(cs2 == oc.update(last as int, None));
                }
                if n == 0 {
                    assert forall|k: Seq<u8>| #[trigger] lookup(r, k, d) is None by {
                        lemma_lookup_unfold(r, k, d);
                        let e = d + prefix@.len();
                        if matches_at(k, d, prefix@) && e < k.len() {
                            let c = k[e] as int;
                            if c != b && ok[c] != 0 {
                                assert(ok[c] != ok[b as int]);
                            }
                        }
                    }
                }
                if n > 0 {
                    assert(wf(r, pre)) by {
                        reveal_with_fuel(wf, 2);
                        assert forall|c: int| 0 <= c < 256 implies #[trigger] ks2[c] <= n by {
                            if c != b && !(i != last && c == lb_g) {
                                if ok[c] == last + 1 {
                                    assert(ok[c] != ok[lb_g] || c == lb_g);
                                }
                                if ok[c] == idx {
                                    assert(ok[c] != ok[b as int] || c == b);
                                }
                            }
                        }
                        assert forall|c1: int, c2: int|
                            0 <= c1 < 256 && 0 <= c2 < 256 && c1 != c2 && ks2[c1] != 0 implies #[trigger] ks2[c1]
                            != #[trigger] ks2[c2] by {
                            if ok[c1] != 0 {
                                assert(ok[c1] != ok[c2]);
                            }
                            if i != last && c1 == lb_g {
                                assert(ok[c2] != ok[b as int] || c2 == b);
                            }
                            if i != last && c2 == lb_g && c1 != b {
                                assert(ok[c1] != ok[b as int]);
                            }
                        }
                        assert forall|j: int| 0 <= j < n implies #[trigger] referenced(ks2, j) by {
                            if i != last && j == i {
                                assert(ks2[lb_g] == j + 1);
                            } else {
                                assert(referenced(ok, j));
                                let w = choose|c: int| 0 <= c < 256 && #[trigger] ok[c] == j + 1;
                                assert(w != b);
                                if i != last {
                                    assert(w != lb_g);
                                }
                                assert(ks2[w] == j + 1);
                            }
                        }
                        assert forall|j: int| 0 <= j < cs2.len() implies (#[trigger] cs2[j] is Some <==> j
                            < n) by {
                            assert(oc[j] is Some <==> j < on);
                            if i != last && j == i {
                                assert(oc[last as int] is Some);
                            }
                        }
                        assert(table48(ks2, cs2, n as int));
                        assert forall|c: int|
                            0 <= c < 256 && #[trigger] ks2[c] != 0 && ks2[c] - 1 < cs2.len()
                                && cs2[ks2[c] - 1] is Some implies wf(
                            *cs2[ks2[c] - 1]->0,
                            pre + prefix@ + seq![c as u8],
                        ) by {
                            assert(ok[c] != 0);
                            if i != last && c == lb_g {
                                assert(cs2[ks2[c] - 1] == oc[last as int]);
                            } else {
                                assert(ks2[c] == ok[c]);
                                assert(ok[c] != ok[b as int]);
                                if i != last {
                                    assert(ok[c] != ok[lb_g]);
                                }
                            }
                        }
                    }
                }
                assert forall|k: Seq<u8>|
                    #[trigger] lookup(r, k, d) == if route(orig, k, d) == Some(i as int) {
                        None
                    } else {
                        lookup(orig, k, d)
                    } by {
                    lemma_lookup_unfold(orig, k, d);
                    lemma_lookup_unfold(r, k, d);
                    let e = d + prefix@.len();
                    if matches_at(k, d, prefix@) && e < k.len() {
                        let c = k[e] as int;
                        if c != b && !(i != last && c == lb_g) && ok[c] != 0 {
                            assert(ok[c] != ok[b as int]);
                            if i != last {
                                assert(ok[c] != ok[lb_g]);
                            }
                        }
                    }
                }
            }
            r
        },
        _ => node,
    }
}

proof fn lemma_count_nz_mono(s: Seq<u8>, i: int, j: int)
    requires
        0 <= i <= j,
    ensures
        count_nz(s, i) <= count_nz(s, j),
    decreases j - i,
{
    if i < j {
        lemma_count_nz_mono(s, i, j - 1);
    }
}

/// Shrinks a 48-slot node with at most sixteen children into a 16-slot
/// node whose slots follow byte order.
fn shrink48(node: Node, Ghost(pre): Ghost<Seq<u8>>) -> (r: Node)
    requires
        node is Inner48,
        count_of(node) <= 16,
        wf(node, pre),
    ensures
        wf(r, pre),
        same_lookups(node, r, pre.len() as int),
{
    let ghost orig = node;
    match node {
        Node::Inner48 { prefix, keys, mut children, n } => {
            let ghost oc = children@;
            proof {
                assert(table48(keys@, oc, n as int));
                assert(forall|j: int| 0 <= j < n ==> #[trigger] oc[j] is Some);
            }
            let mut k16: Vec<u8> = vec![0u8; 16];
            let mut c16 = empty16();
            let mut m: usize = 0;
            let ghost mut pos: Seq<int> = Seq::new(256, |c: int| 0int);
            let mut byte: usize = 0;
            while byte < 256
                invariant
                    0 <= byte <= 256,
                    keys@.len() == 256,
                    oc.len() == 48,
                    children@.len() == 48,
                    k16@.len() == 16,
                    c16@.len() == 16,
                    pos.len() == 256,
                    1 <= n <= 16,
                    count_nz(keys@, 256) == n,
                    m == count_nz(keys@, byte as int),
                    m <= 16,
                    forall|c: int| 0 <= c < 256 ==> #[trigger] keys@[c] <= n,
                    forall|b1: int, b2: int|
                        0 <= b1 < 256 && 0 <= b2 < 256 && b1 != b2 && keys@[b1] != 0 ==> #[trigger] keys@[b1]
                            != #[trigger] keys@[b2],
                    forall|j: int| 0 <= j < n ==> #[trigger] oc[j] is Some,
                    forall|j: int| 0 <= j < m ==> #[trigger] k16@[j] < byte && keys@[k16@[j] as int] != 0,
                    forall|j: int| 0 <= j < m ==> #[trigger] c16@[j] == oc[keys@[k16@[j] as int] - 1],
                    forall|j1: int, j2: int| 0 <= j1 < j2 < m ==> #[trigger] k16@[j1] < #[trigger] k16@[j2],
                    forall|c: int|
                        0 <= c < byte && #[trigger] keys@[c] != 0 ==> 0 <= pos[c] < m && k16@[pos[c]] == c,
                    forall|j: int| m <= j < 16 ==> #[trigger] c16@[j] is None,
                    forall|c: int|
                        byte <= c < 256 && #[trigger] keys@[c] != 0 ==> children@[keys@[c] - 1]
                            == oc[keys@[c] - 1],
                decreases 256 - byte,
            {
                let idx = keys[byte];
                if idx != 0 {
                    proof {
                        lemma_count_nz_mono(keys@, byte + 1, 256);
                        assert(count_nz(keys@, byte + 1) == m + 1);
                    }
                    let bb = byte as u8;
                    assert(bb as int == byte as int);
                    k16.set(m, bb);
                    let c = take_slot(&mut children, idx as usize - 1);
                    assert(c == oc[keys@[byte as int] - 1]);
                    c16.set(m, c);
                    proof {
                        pos = pos.update(byte as int, m as int);
                        assert(k16@[m as int] == bb);
                    }
                    m += 1;
                }
                proof {
                    lemma_count_nz_mono(keys@, byte + 1, 256);
                }
                byte += 1;
            }
            let r = Node::Inner16 { prefix, keys: k16, children: c16, n: m as u8 };
            proof {
                let d = pre.len() as int;
                let ks2 = k16@;
                let cs2 = c16@;
                assert(wf(r, pre)) by {
                    reveal_with_fuel(wf, 2);
                    assert forall|j: int| 0 <= j < cs2.len() implies (#[trigger] cs2[j] is Some <==> j
                        < m) by {
                        if j < m {
                            assert(oc[keys@[ks2[j] as int] - 1] is Some);
                        }
                    }
                    assert forall|i: int, j: int| 0 <= i < j < m implies ks2[i] != ks2[j] by {
                        assert(ks2[i] < ks2[j]);
                    }
                    assert(small_slots(ks2, cs2, m as int));
                    assert forall|j: int|
                        0 <= j < m && j < cs2.len() && cs2[j] is Some implies wf(
                        *#[trigger] cs2[j]->0,
                        pre + prefix@ + seq![ks2[j]],
                    ) by {
                        let c = ks2[j] as int;
                        assert(keys@[c] != 0);
                        assert(c as u8 == ks2[j]);
                    }
                }
                assert forall|k: Seq<u8>| #[trigger] lookup(r, k, d) == lookup(orig, k, d) by {
                    lemma_lookup_unfold(orig, k, d);
                    lemma_lookup_unfold(r, k, d);
                    let e = d + prefix@.len();
                    if matches_at(k, d, prefix@) && e < k.len() {
                        let c = k[e];
                        lemma_first_slot(ks2, c, 0, m as int);
                        if keys@[c as int] != 0 {
                            let j = pos[c as int];
                            assert forall|a: int, b2: int| 0 <= a < b2 < m implies ks2[a] != ks2[b2] by {
                                assert(ks2[a] < ks2[b2]);
                            }
                            lemma_first_slot_distinct(ks2, m as int, j);
                        } else {
                            let f = first_slot(ks2, c, 0, m as int);
                            if f < m {
                                assert(keys@[ks2[f] as int] != 0);
                            }
                        }
                    }
                }
            }
            r
        },
        _ => node,
    }
}

/// Shrinks a 256-slot node with at most forty-eight children into a
/// 48-slot node, numbering the children in byte order.
fn shrink256(node: Node, Ghost(pre): Ghost<Seq<u8>>) -> (r: Node)
    requires
        node is Inner256,
        count_of(node) <= 48,
        wf(node, pre),
    ensures
        wf(r, pre),
        same_lookups(node, r, pre.len() as int),
{
    let ghost orig = node;
    match node {
        Node::Inner256 { prefix, mut children, n } => {
            let ghost oc = children@;
            let mut k48: Vec<u8> = vec![0u8; 256];
            let mut c48 = empty48();
            let mut m: usize = 0;
            let ghost mut inv: Seq<int> = Seq::new(48, |j: int| 0int);
            proof {
                assert(count_nz(k48@, 256) == 0) by {
                    lemma_count_nz_ext(k48@, Seq::new(256, |j: int| 0u8), 256);
                    lemma_count_nz_zero(256);
                }
            }
            let mut byte: usize = 0;
            while byte < 256
                invariant
                    0 <= byte <= 256,
                    oc.len() == 256,
                    children@.len() == 256,
                    k48@.len() == 256,
                    c48@.len() == 48,
                    inv.len() == 48,
                    1 <= n <= 48,
                    count_some(oc, 256) == n,
                    m == count_some(oc, byte as int),
                    count_nz(k48@, 256) == m,
                    forall|c: int| byte <= c < 256 ==> #[trigger] children@[c] == oc[c],
                    forall|c: int| byte <= c < 256 ==> #[trigger] k48@[c] == 0,
                    forall|c: int|
                        0 <= c < byte ==> (#[trigger] k48@[c] != 0 <==> oc[c] is Some),
                    forall|c: int|
                        0 <= c < byte && #[trigger] k48@[c] != 0 ==> 1 <= k48@[c] <= m && inv[k48@[c]
                            - 1] == c && c48@[k48@[c] - 1] == oc[c],
                    forall|j: int| 0 <= j < m ==> 0 <= #[trigger] inv[j] < byte && k48@[inv[j]] == j + 1,
                    forall|j: int| 0 <= j < 48 ==> (#[trigger] c48@[j] is Some <==> j < m),
                decreases 256 - byte,
            {
                let c = take_slot(&mut children, byte);
                if c.is_some() {
                    proof {
                        lemma_count_some_bound(oc, byte + 1, 256);
                        lemma_count_nz_update(k48@, byte as int, (m + 1) as u8, 256);
                        inv = inv.update(m as int, byte as int);
                    }
                    k48.set(byte, m as u8 + 1);
                    c48.set(m, c);
                    m += 1;
                }
                byte += 1;
            }
            let r = Node::Inner48 { prefix, keys: k48, children: c48, n: m as u8 };
            proof {
                let d = pre.len() as int;
                let ks2 = k48@;
                let cs2 = c48@;
                assert(wf(r, pre)) by {
                    reveal_with_fuel(wf, 2);
                    assert forall|c1: int, c2: int|
                        0 <= c1 < 256 && 0 <= c2 < 256 && c1 != c2 && ks2[c1] != 0 implies #[trigger] ks2[c1]
                        != #[trigger] ks2[c2] by {
                        if ks2[c2] != 0 {
                            assert(inv[ks2[c1] - 1] == c1);
                            assert(inv[ks2[c2] - 1] == c2);
                        }
                    }
                    assert forall|j: int| 0 <= j < m implies #[trigger] referenced(ks2, j) by {
                        assert(ks2[inv[j]] == j + 1);
                    }
                    assert forall|c: int| 0 <= c < 256 implies #[trigger] ks2[c] <= m by {}
                    assert(table48(ks2, cs2, m as int));
                    assert forall|c: int|
                        0 <= c < 256 && #[trigger] ks2[c] != 0 && ks2[c] - 1 < cs2.len() && cs2[ks2[c]
                            - 1] is Some implies wf(
                        *cs2[ks2[c] - 1]->0,
                        pre + prefix@ + seq![c as u8],
                    ) by {
                        assert(oc[c] is Some);
                    }
                }
                assert forall|k: Seq<u8>| #[trigger] lookup(r, k, d) == lookup(orig, k, d) by {
                    lemma_lookup_unfold(orig, k, d);
                    lemma_lookup_unfold(r, k, d);
                }
            }
            r
        },
        _ => node,
    }
}

/// Counts the removal of the (already emptied) slot `i` of a 256-slot
/// node.
fn remove256(node: Node, i: usize, Ghost(orig): Ghost<Node>, Ghost(pre): Ghost<Seq<u8>>) -> (r: Node)
    requires
        orig is Inner256,
        wf(orig, pre),
        same_routing(orig, node),
        0 <= i < 256,
        kids(orig)[i as int] is Some,
        kids(node) == kids(orig).update(i as int, None),
    ensures
        r is Inner256,
        count_of(r) == count_of(orig) - 1,
        count_of(r) > 0 ==> wf(r, pre),
        count_of(r) == 0 ==> forall|k: Seq<u8>| #[trigger] lookup(r, k, pre.len() as int) is None,
        forall|k: Seq<u8>|
            #[trigger] lookup(r, k, pre.len() as int) == if route(orig, k, pre.len() as int) == Some(
                i as int,
            ) {
                None
            } else {
                lookup(orig, k, pre.len() as int)
            },
{
    match node {
        Node::Inner256 { prefix, children, n } => {
            let n2 = n.saturating_sub(1);
            let r = Node::Inner256 { prefix, children, n: n2 };
            proof {
                let d = pre.len() as int;
                let oc = kids(orig);
                lemma_count_some_update(oc, i as int, None, 256);
                assert(n2 == n - 1);
                if n2 > 0 {
                    assert(wf(r, pre)) by {
                        reveal_with_fuel(wf, 2);
                        assert forall|c: int|
                            0 <= c < 256 && c < children@.len() && children@[c] is Some implies wf(
                            *#[trigger] children@[c]->0,
                            pre + prefix@ + seq![c as u8],
                        ) by {
                            assert(oc[c] is Some);
                        }
                    }
                } else {
                    lemma_count_some_zero(children@, 256);
                }
                assert forall|k: Seq<u8>|
                    #[trigger] lookup(r, k, d) == if route(orig, k, d) == Some(i as int) {
                        None
                    } else {
                        lookup(orig, k, d)
                    } by {
                    lemma_lookup_unfold(orig, k, d);
                    lemma_lookup_unfold(r, k, d);
                }
            }
            r
        },
        _ => node,
    }
}

/// Ends a delete step: a node left without children is dropped, and one
/// at or below the next smaller kind's capacity shrinks to that kind.
fn finish(node: Node, Ghost(pre): Ghost<Seq<u8>>) -> (r: Option<Node>)
    requires
        !(node is Leaf),
        count_of(node) > 0 ==> wf(node, pre),
    ensures
        count_of(node) == 0 ==> r is None,
        count_of(node) > 0 ==> r is Some && wf(r->0, pre) && same_lookups(node, r->0, pre.len() as int),
{
    let n = node_count(&node);
    if n == 0 {
        return None;
    }
    let (kind, _) = kind_room(&node);
    if kind == 16 && n <= 4 {
        Some(shrink16(node, Ghost(pre)))
    } else if kind == 48 && n <= 16 {
        Some(shrink48(node, Ghost(pre)))
    } else if kind == 255 && n <= 48 {
        Some(shrink256(node, Ghost(pre)))
    } else {
        Some(node)
    }
}

/// Removes `key` (whose first `depth` bytes led here) from below `node`,
/// reclaiming what empties: `None` when nothing is left of the subtree.
/// `len` counts the removal of a stored key.
fn delete_rec(node: Node, key: &[u8], depth: usize, len: &mut usize) -> (r: Option<Node>)
    requires
        depth <= key@.len(),
        wf(node, key@.take(depth as int)),
    ensures
        r matches Some(n2) ==> wf(n2, key@.take(depth as int)) && removed(node, n2, key@, depth as int),
        r is None ==> forall|k: Seq<u8>| #[trigger] lookup(node, k, depth as int) is Some ==> k == key@,
        *final(len) == if lookup(node, key@, depth as int) is Some {
            if *old(len) > 0 {
                *old(len) - 1
            } else {
                0int
            }
        } else {
            *old(len) as int
        },
    decreases node,
{
    let ghost orig = node;
    let ghost pre = key@.take(depth as int);
    let ghost d = depth as int;
    if is_leaf(&node) {
        match node {
            Node::Leaf { key: lk, value: v } => {
                if bytes_eq(lk.as_slice(), key) {
                    *len = len.saturating_sub(1);
                    return None;
                }
                let r = Node::Leaf { key: lk, value: v };
                proof {
                    assert(removed(orig, r, key@, d));
                }
                return Some(r);
            },
            _ => {
                return Some(node);
            },
        }
    }
    if !prefix_matches(&node, key, depth) {
        proof {
            lemma_lookup_unfold(orig, key@, d);
            assert forall|k: Seq<u8>| #[trigger] lookup(node, k, d) == if k == key@ {
                None
            } else {
                lookup(orig, k, d)
            } by {}
        }
        return Some(node);
    }
    let pl = prefix_len(&node);
    assert(key@.len() == key.len());
    let d2 = depth + pl;
    if d2 >= key.len() {
        proof {
            lemma_lookup_unfold(orig, key@, d);
            assert forall|k: Seq<u8>| #[trigger] lookup(node, k, d) == if k == key@ {
                None
            } else {
                lookup(orig, k, d)
            } by {}
        }
        return Some(node);
    }
    proof {
        lemma_starts_with(key@, pre);
        assert(starts_with(key@, pre)) by {
            assert(key@.subrange(0, depth as int) =~= pre);
        }
        lemma_lookup_unfold(orig, key@, d);
    }
    let (kind, _) = kind_room(&node);
    let slot = find_route(&node, key, depth);
    let i = match slot {
        Some(i) => i,
        None => {
            proof {
                assert forall|k: Seq<u8>| #[trigger] lookup(node, k, d) == if k == key@ {
                    None
                } else {
                    lookup(orig, k, d)
                } by {}
            }
            if kind == 48 {
                let r = finish(node, Ghost(pre));
                return r;
            }
            return Some(node);
        },
    };
    if !slot_occupied(&node, i) {
        proof {
            assert forall|k: Seq<u8>| #[trigger] lookup(node, k, d) == if k == key@ {
                None
            } else {
                lookup(orig, k, d)
            } by {}
        }
        if kind == 255 {
            let r = finish(node, Ghost(pre));
            return r;
        }
        return Some(node);
    }
    let (taken, child) = take_child(node, i);
    proof {
        lemma_child_decreases(orig, i as int);
        lemma_route_child_wf(orig, pre, key@, i as int);
    }
    let b = key[d2];
    let res = delete_rec(child, key, d2 + 1, len);
    match res {
        Some(c2) => {
            let r = put_child(taken, i, c2);
            proof {
                assert(kids(r) == kids(orig).update(i as int, Some(Box::new(c2))));
                lemma_update_child(orig, r, i as int, c2, d);
                lemma_wf_update_child(orig, r, i as int, c2, pre, key@);
                assert forall|k: Seq<u8>|
                    #[trigger] lookup(r, k, d) == if k == key@ {
                        None
                    } else {
                        lookup(orig, k, d)
                    } by {
                    lemma_lookup_unfold(orig, k, d);
                }
            }
            if kind == 4 {
                return Some(r);
            }
            let out = finish(r, Ghost(pre));
            proof {
                let r2 = out->0;
                assert forall|k: Seq<u8>|
                    #[trigger] lookup(r2, k, d) == if k == key@ {
                        None
                    } else {
                        lookup(orig, k, d)
                    } by {
                    assert(lookup(r2, k, d) == lookup(r, k, d));
                }
            }
            out
        },
        None => {
            let r = if kind == 4 || kind == 16 {
                small_remove(taken, i, Ghost(orig), Ghost(pre))
            } else if kind == 48 {
                remove48(taken, b as usize, Ghost(orig), Ghost(pre))
            } else {
                remove256(taken, i, Ghost(orig), Ghost(pre))
            };
            proof {
                assert(route(orig, key@, d) == Some(i as int));
                assert forall|k: Seq<u8>|
                    #[trigger] lookup(r, k, d) == if k == key@ {
                        None
                    } else {
                        lookup(orig, k, d)
                    } by {
                    lemma_lookup_unfold(orig, k, d);
                    if route(orig, k, d) == Some(i as int) && k != key@ {
                        assert(lookup(orig, k, d) == lookup(child, k, d2 + 1));
                    }
                }
                if count_of(r) == 0 {
                    assert forall|k: Seq<u8>| #[trigger] lookup(orig, k, d) is Some implies k == key@ by {
                        if k != key@ {
                            assert(lookup(r, k, d) == lookup(orig, k, d));
                            lemma_lookup_unfold(r, k, d);
                        }
                    }
                }
            }
            let out = finish(r, Ghost(pre));
            proof {
                if count_of(r) > 0 {
                    let r2 = out->0;
                    assert forall|k: Seq<u8>|
                        #[trigger] lookup(r2, k, d) == if k == key@ {
                            None
                        } else {
                            lookup(orig, k, d)
                        } by {
                        assert(lookup(r2, k, d) == lookup(r, k, d));
                    }
                }
            }
            out
        },
    }
}

// ---------------------------------------------------------------------------
// Enumeration
// ---------------------------------------------------------------------------

/// No key occurs twice.
spec fn keys_unique(ls: Seq<(Seq<u8>, u64)>) -> bool {
    forall|a: int, b: int| 0 <= a < b < ls.len() ==> #[trigger] ls[a].0 != #[trigger] ls[b].0
}

/// Number of slots an inner node enumerates.
spec fn enum_count(node: Node) -> int {
    match node {
        Node::Inner256 { children, .. } => children@.len() as int,
        _ => count_of(node),
    }
}

/// The byte that leads to slot `i`.
spec fn slot_byte(node: Node, i: int) -> u8 {
    match node {
        Node::Inner4 { keys, .. } => keys@[i],
        Node::Inner16 { keys, .. } => keys@[i],
        Node::Inner48 { keys, .. } => (choose|b: int| 0 <= b < 256 && keys@[b] == i + 1) as u8,
        _ => i as u8,
    }
}

/// Leaves of an inner node are those of its enumerated slots.
proof fn lemma_leaves_inner(node: Node)
    requires
        !(node is Leaf),
    ensures
        leaves(node) == slot_leaves(kids(node), enum_count(node)),
{
}

/// An element is among the leaves of the first `m` slots iff it is among
/// the leaves of one of them.
proof fn lemma_slot_member(s: Seq<Option<Box<Node>>>, m: int, x: (Seq<u8>, u64))
    requires
        0 <= m <= s.len(),
    ensures
        slot_leaves(s, m).contains(x) <==> exists|i: int|
            0 <= i < m && s[i] is Some && #[trigger] leaves(*s[i]->0).contains(x),
    decreases m,
{
    if m > 0 {
        lemma_slot_member(s, m - 1, x);
        let a = slot_leaves(s, m - 1);
        let b = match s[m - 1] {
            Some(c) => leaves(*c),
            None => Seq::empty(),
        };
        assert(slot_leaves(s, m) == a + b);
        if (a + b).contains(x) {
            let j = choose|j: int| 0 <= j < (a + b).len() && (a + b)[j] == x;
            if j >= a.len() {
                assert(b[j - a.len()] == x);
                assert(leaves(*s[m - 1]->0).contains(x));
            } else {
                assert(a[j] == x);
            }
        }
        if exists|i: int| 0 <= i < m && s[i] is Some && #[trigger] leaves(*s[i]->0).contains(x) {
            let i = choose|i: int| 0 <= i < m && s[i] is Some && #[trigger] leaves(*s[i]->0).contains(x);
            if i == m - 1 {
                let j = choose|j: int| 0 <= j < b.len() && b[j] == x;
                assert((a + b)[a.len() + j] == x);
            } else {
                let j = choose|j: int| 0 <= j < a.len() && a[j] == x;
                assert((a + b)[j] == x);
            }
        }
    } else {
        assert(slot_leaves(s, m) =~= Seq::empty());
    }
}

/// Leaves of distinct slots with unique keys, under distinct keys across
/// slots, have unique keys.
proof fn lemma_slot_unique(s: Seq<Option<Box<Node>>>, m: int)
    requires
        0 <= m <= s.len(),
        forall|i: int| 0 <= i < m && s[i] is Some ==> keys_unique(leaves(*#[trigger] s[i]->0)),
        forall|i1: int, i2: int, x1: (Seq<u8>, u64), x2: (Seq<u8>, u64)|
            0 <= i1 < i2 < m && s[i1] is Some && s[i2] is Some && #[trigger] leaves(
                *s[i1]->0,
            ).contains(x1) && #[trigger] leaves(*s[i2]->0).contains(x2) ==> x1.0 != x2.0,
    ensures
        keys_unique(slot_leaves(s, m)),
    decreases m,
{
    if m > 0 {
        lemma_slot_unique(s, m - 1);
        let a = slot_leaves(s, m - 1);
        let b = match s[m - 1] {
            Some(c) => leaves(*c),
            None => Seq::empty(),
        };
        let ab = a + b;
        assert(slot_leaves(s, m) == ab);
        assert forall|p: int, q: int| 0 <= p < q < ab.len() implies #[trigger] ab[p].0 != #[trigger] ab[q].0 by {
            if q < a.len() {
                assert(ab[p] == a[p] && ab[q] == a[q]);
            } else if p >= a.len() {
                assert(ab[p] == b[p - a.len()] && ab[q] == b[q - a.len()]);
            } else {
                assert(ab[p] == a[p]);
                assert(a.contains(a[p]));
                lemma_slot_member(s, m - 1, a[p]);
                let i = choose|i: int| 0 <= i < m - 1 && s[i] is Some && #[trigger] leaves(*s[i]->0).contains(a[p]);
                assert(ab[q] == b[q - a.len()]);
                assert(b.contains(b[q - a.len()]));
                assert(leaves(*s[m - 1]->0).contains(ab[q]));
            }
        }
    } else {
        assert(slot_leaves(s, m) =~= Seq::empty());
    }
}

/// What an enumerated, occupied slot holds: a subtree reached by its byte,
/// to which every key with that byte is routed; distinct slots have
/// distinct bytes.
proof fn lemma_slot_facts(node: Node, pre: Seq<u8>, i: int)
    requires
        wf(node, pre),
        !(node is Leaf),
        0 <= i < enum_count(node),
        kids(node)[i] is Some,
    ensures
        i < kids(node).len(),
        wf(*kids(node)[i]->0, pre + node_prefix(node) + seq![slot_byte(node, i)]),
        forall|k: Seq<u8>|
            starts_with(k, pre + node_prefix(node) + seq![slot_byte(node, i)]) ==> #[trigger] route(
                node,
                k,
                pre.len() as int,
            ) == Some(i),
        forall|j: int|
            0 <= j < enum_count(node) && j != i && #[trigger] kids(node)[j] is Some ==> slot_byte(node, j)
                != slot_byte(node, i),
{
    reveal_with_fuel(wf, 2);
    let d = pre.len() as int;
    let p = node_prefix(node);
    let e = d + p.len();
    let pc = pre + p + seq![slot_byte(node, i)];
    assert forall|k: Seq<u8>| starts_with(k, pc) implies #[trigger] route(node, k, d) == Some(i) by {
        lemma_starts_with(k, pc);
        assert(k.subrange(d, e) =~= p);
        assert(k[e] == slot_byte(node, i));
        match node {
            Node::Inner4 { keys, children, n, .. } => {
                lemma_first_slot_distinct(keys@, n as int, i);
            },
            Node::Inner16 { keys, children, n, .. } => {
                lemma_first_slot_distinct(keys@, n as int, i);
            },
            Node::Inner48 { keys, children, n, .. } => {
                assert(referenced(keys@, i));
            },
            _ => {},
        }
    }
    match node {
        Node::Inner4 { keys, children, n, .. } => {
            lemma_small_child(node, pre, i);
        },
        Node::Inner16 { keys, children, n, .. } => {
            lemma_small_child(node, pre, i);
        },
        Node::Inner48 { prefix, keys, children, n } => {
            assert(referenced(keys@, i));
            let b = choose|b: int| 0 <= b < 256 && keys@[b] == i + 1;
            assert(keys@[b] != 0);
            assert forall|j: int|
                0 <= j < enum_count(node) && j != i && #[trigger] kids(node)[j] is Some implies slot_byte(
                node,
                j,
            ) != slot_byte(node, i) by {
                assert(referenced(keys@, j));
                let bj = choose|c: int| 0 <= c < 256 && keys@[c] == j + 1;
            }
        },
        Node::Inner256 { prefix, children, n } => {
            assert(children@[i] is Some);
        },
        _ => {},
    }
}

/// The leaves of a well-formed node are exactly what lookup finds, each key
/// once.
proof fn lemma_leaves(node: Node, pre: Seq<u8>)
    requires
        wf(node, pre),
    ensures
        forall|k: Seq<u8>, v: u64|
            #[trigger] leaves(node).contains((k, v)) <==> lookup(node, k, pre.len() as int) == Some(v),
        keys_unique(leaves(node)),
    decreases node,
{
    let d = pre.len() as int;
    if node is Leaf {
        match node {
            Node::Leaf { key, value } => {
                assert forall|k: Seq<u8>, v: u64|
                    #[trigger] leaves(node).contains((k, v)) <==> lookup(node, k, d) == Some(v) by {
                    if leaves(node).contains((k, v)) {
                        let j = choose|j: int| 0 <= j < leaves(node).len() && leaves(node)[j] == (k, v);
                        assert(j == 0);
                    }
                    if lookup(node, k, d) == Some(v) {
                        assert(leaves(node)[0] == (k, v));
                    }
                }
            },
            _ => {},
        }
        return;
    }
    let s = kids(node);
    let m = enum_count(node);
    let p = node_prefix(node);
    let e = d + p.len();
    lemma_leaves_inner(node);
    assert(m <= s.len()) by {
        match node {
            Node::Inner4 { .. } => {},
            Node::Inner16 { .. } => {},
            Node::Inner48 { .. } => {},
            _ => {},
        }
    }
    assert forall|i: int| 0 <= i < m && s[i] is Some implies ({
        let c = *s[i]->0;
        let pc = pre + p + seq![slot_byte(node, i)];
        &&& wf(c, pc)
        &&& forall|k: Seq<u8>, v: u64|
            #[trigger] leaves(c).contains((k, v)) <==> lookup(c, k, pc.len() as int) == Some(v)
        &&& keys_unique(leaves(c))
        &&& forall|x: (Seq<u8>, u64)| #[trigger] leaves(c).contains(x) ==> starts_with(x.0, pc)
    }) by {
        let c = *s[i]->0;
        let pc = pre + p + seq![slot_byte(node, i)];
        lemma_slot_facts(node, pre, i);
        lemma_child_decreases(node, i);
        lemma_leaves(c, pc);
        assert forall|x: (Seq<u8>, u64)| #[trigger] leaves(c).contains(x) implies starts_with(x.0, pc) by {
            assert(leaves(c).contains((x.0, x.1)));
            lemma_lookup_prefix(c, pc, x.0);
        }
    }
    assert forall|k: Seq<u8>, v: u64|
        #[trigger] leaves(node).contains((k, v)) <==> lookup(node, k, d) == Some(v) by {
        lemma_slot_member(s, m, (k, v));
        lemma_lookup_unfold(node, k, d);
        if leaves(node).contains((k, v)) {
            let i = choose|i: int| 0 <= i < m && s[i] is Some && #[trigger] leaves(*s[i]->0).contains((k, v));
            lemma_slot_facts(node, pre, i);
            let pc = pre + p + seq![slot_byte(node, i)];
            assert(starts_with(k, pc));
            assert(route(node, k, d) == Some(i));
        }
        if lookup(node, k, d) == Some(v) {
            let i = route(node, k, d)->0;
            assert(0 <= i < m) by {
                match node {
                    Node::Inner4 { keys, n, .. } => {
                        lemma_first_slot(keys@, k[e], 0, n as int);
                    },
                    Node::Inner16 { keys, n, .. } => {
                        lemma_first_slot(keys@, k[e], 0, n as int);
                    },
                    Node::Inner48 { keys, children, n, .. } => {
                        assert(table48(keys@, children@, n as int));
                    },
                    _ => {},
                }
            }
            lemma_slot_facts(node, pre, i);
            assert(lookup(*s[i]->0, k, e + 1) == Some(v));
            let pc = pre + p + seq![slot_byte(node, i)];
            assert(pc.len() == e + 1);
            assert(leaves(*s[i]->0).contains((k, v)));
        }
    }
    assert forall|i1: int, i2: int, x1: (Seq<u8>, u64), x2: (Seq<u8>, u64)|
        0 <= i1 < i2 < m && s[i1] is Some && s[i2] is Some && #[trigger] leaves(*s[i1]->0).contains(x1)
            && #[trigger] leaves(*s[i2]->0).contains(x2) implies x1.0 != x2.0 by {
        lemma_slot_facts(node, pre, i1);
        let pc1 = pre + p + seq![slot_byte(node, i1)];
        let pc2 = pre + p + seq![slot_byte(node, i2)];
        lemma_starts_with(x1.0, pc1);
        lemma_starts_with(x2.0, pc2);
        assert(x1.0[e] == slot_byte(node, i1));
        assert(x2.0[e] == slot_byte(node, i2));
    }
    lemma_slot_unique(s, m);
}

/// Entries of a leaf sequence whose key starts with `p` and is valid UTF-8,
/// as (text, value), in order.
spec fn scan_entries(ls: Seq<(Seq<u8>, u64)>, p: Seq<u8>) -> Seq<(Seq<char>, u64)>
    decreases ls.len(),
{
    if ls.len() == 0 {
        Seq::empty()
    } else {
        let rest = scan_entries(ls.drop_last(), p);
        let x = ls.last();
        if starts_with(x.0, p) && valid_utf8(x.0) {
            rest.push((decode_utf8(x.0), x.1))
        } else {
            rest
        }
    }
}

proof fn lemma_scan_concat(a: Seq<(Seq<u8>, u64)>, b: Seq<(Seq<u8>, u64)>, p: Seq<u8>)
    ensures
        scan_entries(a + b, p) == scan_entries(a, p) + scan_entries(b, p),
    decreases b.len(),
{
    if b.len() == 0 {
        assert(a + b =~= a);
        assert(scan_entries(b, p) =~= Seq::empty());
    } else {
        lemma_scan_concat(a, b.drop_last(), p);
        assert((a + b).drop_last() =~= a + b.drop_last());
        assert((a + b).last() == b.last());
    }
}

/// Every scanned entry comes from a leaf with a matching, valid key.
proof fn lemma_scan_member(ls: Seq<(Seq<u8>, u64)>, p: Seq<u8>, j: int)
    requires
        0 <= j < scan_entries(ls, p).len(),
    ensures
        exists|i: int|
            0 <= i < ls.len() && starts_with(#[trigger] ls[i].0, p) && valid_utf8(ls[i].0)
                && scan_entries(ls, p)[j] == (decode_utf8(ls[i].0), ls[i].1),
    decreases ls.len(),
{
    let rest = scan_entries(ls.drop_last(), p);
    if j < rest.len() {
        lemma_scan_member(ls.drop_last(), p, j);
        let i = choose|i: int|
            0 <= i < ls.drop_last().len() && starts_with(#[trigger] ls.drop_last()[i].0, p) && valid_utf8(
                ls.drop_last()[i].0,
            ) && rest[j] == (decode_utf8(ls.drop_last()[i].0), ls.drop_last()[i].1);
        assert(ls[i] == ls.drop_last()[i]);
    } else {
        assert(ls[ls.len() - 1] == ls.last());
    }
}

/// Every leaf with a matching, valid key has its entry among the scanned.
proof fn lemma_scan_complete(ls: Seq<(Seq<u8>, u64)>, p: Seq<u8>, i: int)
    requires
        0 <= i < ls.len(),
        starts_with(ls[i].0, p),
        valid_utf8(ls[i].0),
    ensures
        exists|j: int|
            0 <= j < scan_entries(ls, p).len() && #[trigger] scan_entries(ls, p)[j] == (
                decode_utf8(ls[i].0),
                ls[i].1,
            ),
    decreases ls.len(),
{
    let rest = scan_entries(ls.drop_last(), p);
    if i < ls.len() - 1 {
        lemma_scan_complete(ls.drop_last(), p, i);
        let j = choose|j: int|
            0 <= j < rest.len() && #[trigger] rest[j] == (decode_utf8(ls.drop_last()[i].0), ls.drop_last()[i].1);
        assert(scan_entries(ls, p)[j] == rest[j]);
    } else {
        assert(scan_entries(ls, p)[rest.len() as int] == (decode_utf8(ls[i].0), ls[i].1));
    }
}

/// Scanned entries keep the order and uniqueness of the leaves' keys.
proof fn lemma_scan_unique(ls: Seq<(Seq<u8>, u64)>, p: Seq<u8>)
    requires
        keys_unique(ls),
    ensures
        forall|a: int, b: int|
            0 <= a < b < scan_entries(ls, p).len() ==> #[trigger] scan_entries(ls, p)[a].0
                != #[trigger] scan_entries(ls, p)[b].0,
    decreases ls.len(),
{
    if ls.len() > 0 {
        let l2 = ls.drop_last();
        assert(keys_unique(l2)) by {
            assert forall|a: int, b: int| 0 <= a < b < l2.len() implies #[trigger] l2[a].0 != #[trigger] l2[b].0 by {
                assert(l2[a] == ls[a] && l2[b] == ls[b]);
            }
        }
        lemma_scan_unique(l2, p);
        let rest = scan_entries(l2, p);
        let x = ls.last();
        if starts_with(x.0, p) && valid_utf8(x.0) {
            let sc = rest.push((decode_utf8(x.0), x.1));
            assert forall|a: int, b: int| 0 <= a < b < sc.len() implies #[trigger] sc[a].0 != #[trigger] sc[b].0 by {
                if b == rest.len() {
                    lemma_scan_member(l2, p, a);
                    let i = choose|i: int|
                        0 <= i < l2.len() && starts_with(#[trigger] l2[i].0, p) && valid_utf8(l2[i].0)
                            && rest[a] == (decode_utf8(l2[i].0), l2[i].1);
                    assert(ls[i] == l2[i]);
                    assert(ls[ls.len() - 1] == x);
                    decode_utf8_encode_utf8(l2[i].0);
                    decode_utf8_encode_utf8(x.0);
                    assert(l2[i].0 != x.0);
                } else {
                    assert(sc[a] == rest[a] && sc[b] == rest[b]);
                }
            }
        }
    }
}

/// The (text, value) view of collected entries.
spec fn texts(v: Seq<(String, u64)>) -> Seq<(Seq<char>, u64)> {
    Seq::new(v.len(), |i: int| (v[i].0@, v[i].1))
}

/// Appends, in slot order, the entries under `node` whose key starts with
/// `prefix` and reads as UTF-8.
fn collect_prefix(node: &Node, prefix: &[u8], out: &mut Vec<(String, u64)>, Ghost(pre): Ghost<Seq<u8>>)
    requires
        wf(*node, pre),
    ensures
        texts(final(out)@) == texts(old(out)@) + scan_entries(leaves(*node), prefix@),
    decreases *node,
{
    let ghost p = prefix@;
    match node {
        Node::Leaf { key, value } => {
            let ghost ls = leaves(*node);
            assert(ls.drop_last() =~= Seq::<(Seq<u8>, u64)>::empty());
            assert(ls.last() == (key@, *value));
            if matches_prefix(key.as_slice(), 0, prefix) {
                proof {
                    assert(key@.subrange(0, p.len() as int) == p);
                }
                match utf8_str(key.as_slice()) {
                    Some(s) => {
                        let ghost before = out@;
                        out.push((s.to_owned(), *value));
                        assert(scan_entries(ls.drop_last(), p) =~= Seq::empty());
                        assert(scan_entries(ls, p) =~= seq![(decode_utf8(key@), *value)]);
                        assert(texts(out@) =~= texts(before) + seq![(decode_utf8(key@), *value)]);
                    },
                    None => {
                        assert(scan_entries(ls.drop_last(), p) =~= Seq::empty());
                        assert(scan_entries(ls, p) =~= Seq::empty());
                        assert(texts(out@) =~= texts(old(out)@) + Seq::<(Seq<char>, u64)>::empty());
                    },
                }
            } else {
                proof {
                    if starts_with(key@, p) {
                        assert(key@.subrange(0, p.len() as int) == p);
                    }
                    assert(scan_entries(ls.drop_last(), p) =~= Seq::empty());
                    assert(scan_entries(ls, p) =~= Seq::empty());
                }
                assert(texts(out@) =~= texts(old(out)@) + Seq::<(Seq<char>, u64)>::empty());
            }
        },
        Node::Inner4 { children, n, .. } => {
            collect_slots(node, children, *n as usize, prefix, out, Ghost(pre));
        },
        Node::Inner16 { children, n, .. } => {
            collect_slots(node, children, *n as usize, prefix, out, Ghost(pre));
        },
        Node::Inner48 { children, n, .. } => {
            collect_slots(node, children, *n as usize, prefix, out, Ghost(pre));
        },
        Node::Inner256 { children, .. } => {
            collect_slots(node, children, children.len(), prefix, out, Ghost(pre));
        },
    }
}

/// Collects from the first `m` slots of `node`, in order.
fn collect_slots(
    node: &Node,
    children: &Vec<Option<Box<Node>>>,
    m: usize,
    prefix: &[u8],
    out: &mut Vec<(String, u64)>,
    Ghost(pre): Ghost<Seq<u8>>,
)
    requires
        wf(*node, pre),
        !(*node is Leaf),
        children@ == kids(*node),
        m == enum_count(*node),
    ensures
        texts(final(out)@) == texts(old(out)@) + scan_entries(leaves(*node), prefix@),
    decreases *node, 1nat,
{
    proof {
        lemma_leaves_inner(*node);
    }
    let ghost s = children@;
    proof {
        assert(m <= s.len()) by {
            match *node {
                Node::Inner4 { .. } => {},
                Node::Inner16 { .. } => {},
                Node::Inner48 { .. } => {},
                _ => {},
            }
        }
    }
    let mut i: usize = 0;
    while i < m
        invariant
            wf(*node, pre),
            m <= s.len(),
            0 <= i <= m,
            s == children@,
            s == kids(*node),
            !(*node is Leaf),
            m == enum_count(*node),
            i <= s.len(),
            texts(out@) == texts(old(out)@) + scan_entries(slot_leaves(s, i as int), prefix@),
        decreases m - i,
    {
        let ghost before = out@;
        assert(slot_leaves(s, i + 1) == slot_leaves(s, i as int) + match s[i as int] {
            Some(c) => leaves(*c),
            None => Seq::empty(),
        });
        proof {
            lemma_scan_concat(slot_leaves(s, i as int), match s[i as int] {
                Some(c) => leaves(*c),
                None => Seq::empty(),
            }, prefix@);
        }
        match &children[i] {
            Some(c) => {
                proof {
                    lemma_child_decreases(*node, i as int);
                    lemma_slot_facts(*node, pre, i as int);
                }
                collect_prefix(&**c, prefix, out, Ghost(pre + node_prefix(*node) + seq![slot_byte(*node, i as int)]));
            },
            None => {
                assert(scan_entries(Seq::<(Seq<u8>, u64)>::empty(), prefix@) =~= Seq::empty());
            },
        }
        i += 1;
    }
}

/// Leaves of an optional root.
spec fn root_leaves(root: Option<Box<Node>>) -> Seq<(Seq<u8>, u64)> {
    match root {
        Some(r) => leaves(*r),
        None => Seq::empty(),
    }
}

proof fn lemma_root_leaves(root: Option<Box<Node>>)
    requires
        root matches Some(r) ==> wf(*r, Seq::empty()),
    ensures
        forall|k: Seq<u8>, v: u64|
            #[trigger] root_leaves(root).contains((k, v)) <==> lookup_root(root, k) == Some(v),
        keys_unique(root_leaves(root)),
{
    match root {
        Some(r) => {
            lemma_leaves(*r, Seq::empty());
        },
        None => {
            assert forall|k: Seq<u8>, v: u64|
                #[trigger] root_leaves(root).contains((k, v)) <==> lookup_root(root, k) == Some(v) by {
                if root_leaves(root).contains((k, v)) {
                    let j = choose|j: int| 0 <= j < root_leaves(root).len() && root_leaves(root)[j] == (k, v);
                }
            }
        },
    }
}

// ---------------------------------------------------------------------------
// The index
// ---------------------------------------------------------------------------

/// Adaptive radix tree index from string keys to `u64` values. `len` is
/// the number of keys.
pub struct ArtIndex {
    root: Option<Box<Node>>,
    pub len: usize,
}

impl View for ArtIndex {
    type V = Map<Seq<u8>, u64>;

    /// The keys (as bytes) and values reachable by lookup.
    closed spec fn view(&self) -> Map<Seq<u8>, u64> {
        Map::new(
            |k: Seq<u8>| lookup_root(self.root, k) is Some,
            |k: Seq<u8>| lookup_root(self.root, k)->0,
        )
    }
}

impl ArtIndex {
    /// The `len` counter.
    pub closed spec fn size(&self) -> nat {
        self.len as nat
    }

    /// Well-formed tree, a finite key set, and `len` its size.
    pub closed spec fn wf(&self) -> bool {
        &&& match self.root {
            Some(r) => wf(*r, Seq::empty()),
            None => true,
        }
        &&& self@.dom().finite()
        &&& self.len == self@.dom().len()
        &&& forall|k: Seq<u8>| #[trigger] self@.dom().contains(k) ==> valid_utf8(k)
    }

    /// An empty index.
    pub fn new() -> (r: Self)
        ensures
            r.wf(),
            r@ == Map::<Seq<u8>, u64>::empty(),
            r.size() == 0,
    {
        let r = ArtIndex { root: None, len: 0 };
        assert(r@ =~= Map::<Seq<u8>, u64>::empty());
        r
    }

    /// Removes every key.
    pub fn clear(&mut self)
        ensures
            final(self).wf(),
            final(self)@ == Map::<Seq<u8>, u64>::empty(),
            final(self).size() == 0,
    {
        self.root = None;
        self.len = 0;
        assert(self@ =~= Map::<Seq<u8>, u64>::empty());
    }
    /// Inserts `key` with `value`, replacing the value of a stored key. The
    /// key must be prefix-compatible with every stored key (neither may be
    /// a proper prefix of the other).
    pub fn insert(&mut self, key: &str, value: u64)
        requires
            old(self).wf(),
            old(self).size() < usize::MAX,
            forall|k: Seq<u8>|
                #[trigger] old(self)@.dom().contains(k) ==> !proper_prefix(k, key.spec_bytes())
                    && !proper_prefix(key.spec_bytes(), k),
        ensures
            final(self).wf(),
            final(self)@ == old(self)@.insert(key.spec_bytes(), value),
            final(self).size() == old(self).size() + if old(self)@.dom().contains(key.spec_bytes()) {
                0int
            } else {
                1int
            },
    {
        let kb = key.as_bytes();
        let ghost k0 = kb@;
        let ghost old_view = self@;
        proof {
            self.lemma_entry(k0);
            encode_utf8_valid_utf8(key@);
        }
        if self.root.is_none() {
            let leaf = new_leaf(kb, value);
            self.root = Some(Box::new(leaf));
            self.len = 1;
            proof {
                assert(wf(leaf, Seq::empty())) by {
                    assert(k0.subrange(0, 0) =~= Seq::<u8>::empty());
                }
                assert(self@ =~= old_view.insert(k0, value)) by {
                    assert forall|k: Seq<u8>| #[trigger] self@.dom().contains(k) == old_view.insert(k0, value).dom().contains(k) by {
                        self.lemma_entry(k);
                    }
                    assert forall|k: Seq<u8>| #[trigger] self@.dom().contains(k) implies self@[k] == old_view.insert(k0, value)[k] by {
                        self.lemma_entry(k);
                    }
                }
                assert(old_view.dom() =~= Set::<Seq<u8>>::empty()) by {
                    assert forall|k: Seq<u8>| !#[trigger] old_view.dom().contains(k) by {
                        assert(lookup_root(None, k) is None);
                    }
                }
                assert(self@.dom() =~= set![k0]);
            }
            return;
        }
        let root = self.root.take().unwrap();
        let ghost old_root = *root;
        proof {
            assert(k0.take(0) =~= Seq::<u8>::empty());
            assert forall|k: Seq<u8>| #[trigger] lookup(old_root, k, 0) is Some implies !proper_prefix(k, k0)
                && !proper_prefix(k0, k) by {
                assert(lookup_root(Some(Box::new(old_root)), k) is Some);
                assert(old_view.dom().contains(k));
            }
        }
        let mut count = self.len;
        let r = insert_rec(*root, kb, 0, value, &mut count);
        self.root = Some(Box::new(r));
        self.len = count;
        proof {
            assert(self@ =~= old_view.insert(k0, value)) by {
                assert forall|k: Seq<u8>| #[trigger] self@.dom().contains(k) == old_view.insert(k0, value).dom().contains(k) by {
                    assert(lookup(r, k, 0) == if k == k0 { Some(value) } else { lookup(old_root, k, 0) });
                    assert(old_view.dom().contains(k) == (lookup(old_root, k, 0) is Some));
                }
                assert forall|k: Seq<u8>| #[trigger] self@.dom().contains(k) implies self@[k] == old_view.insert(k0, value)[k] by {
                    assert(lookup(r, k, 0) == if k == k0 { Some(value) } else { lookup(old_root, k, 0) });
                    assert(old_view.dom().contains(k) == (lookup(old_root, k, 0) is Some));
                }
            }
            assert(old_view.dom().contains(k0) == (lookup(old_root, k0, 0) is Some));
        }
    }

    /// Removes `key`, reclaiming emptied nodes; whether it was stored.
    pub fn delete(&mut self, key: &str) -> (r: bool)
        requires
            old(self).wf(),
        ensures
            final(self).wf(),
            final(self)@ == old(self)@.remove(key.spec_bytes()),
            r == old(self)@.dom().contains(key.spec_bytes()),
            final(self).size() == old(self).size() - if r {
                1int
            } else {
                0int
            },
    {
        let kb = key.as_bytes();
        let ghost k0 = kb@;
        let ghost old_view = self@;
        let before = self.len;
        proof {
            self.lemma_entry(k0);
        }
        if self.root.is_some() {
            let root = self.root.take().unwrap();
            let ghost old_root = *root;
            proof {
                assert(k0.take(0) =~= Seq::<u8>::empty());
                if old_view.dom().contains(k0) {
                    assert(old_view.dom().len() > 0) by {
                        vstd::set_lib::lemma_set_empty_equivalency_len(old_view.dom());
                    }
                }
            }
            let mut count = self.len;
            let res = delete_rec(*root, kb, 0, &mut count);
            self.root = match res {
                Some(n2) => Some(Box::new(n2)),
                None => None,
            };
            self.len = count;
            proof {
                assert(self@ =~= old_view.remove(k0)) by {
                    assert forall|k: Seq<u8>| #[trigger] self@.dom().contains(k) == old_view.remove(k0).dom().contains(k) by {
                        assert(old_view.dom().contains(k) == (lookup(old_root, k, 0) is Some));
                        self.lemma_entry(k);
                    }
                    assert forall|k: Seq<u8>| #[trigger] self@.dom().contains(k) implies self@[k] == old_view.remove(k0)[k] by {
                        assert(old_view.dom().contains(k) == (lookup(old_root, k, 0) is Some));
                        self.lemma_entry(k);
                        assert(old_view[k] == lookup(old_root, k, 0)->0);
                    }
                }
                assert(old_view.dom().contains(k0) == (lookup(old_root, k0, 0) is Some));
            }
        } else {
            proof {
                assert(!old_view.dom().contains(k0));
                assert(self@ =~= old_view.remove(k0));
            }
        }
        self.len < before
    }

    /// Entries (key as text, value) whose key starts with `prefix`: each
    /// stored key with that prefix exactly once.
    pub fn scan_prefix(&self, prefix: &str) -> (r: Vec<(String, u64)>)
        requires
            self.wf(),
        ensures
            forall|j: int|
                0 <= j < r@.len() ==> starts_with(#[trigger] encode_utf8(r@[j].0@), prefix.spec_bytes())
                    && self@.dom().contains(encode_utf8(r@[j].0@)) && self@[encode_utf8(r@[j].0@)]
                    == r@[j].1,
            forall|k: Seq<u8>|
                #[trigger] self@.dom().contains(k) && starts_with(k, prefix.spec_bytes()) ==> exists|j: int|
                    0 <= j < r@.len() && encode_utf8(r@[j].0@) == k,
            forall|a: int, b: int| 0 <= a < b < r@.len() ==> #[trigger] r@[a].0@ != #[trigger] r@[b].0@,
    {
        let pb = prefix.as_bytes();
        let ghost p = pb@;
        let mut out: Vec<(String, u64)> = Vec::new();
        match &self.root {
            Some(root) => {
                proof {
                    assert(wf(**root, Seq::empty()));
                }
                collect_prefix(&**root, pb, &mut out, Ghost(Seq::empty()));
            },
            None => {},
        }
        proof {
            let ls = root_leaves(self.root);
            assert(texts(out@) == scan_entries(ls, p)) by {
                if self.root is None {
                    assert(texts(out@) =~= Seq::empty());
                    assert(scan_entries(ls, p) =~= Seq::empty());
                } else {
                    assert(texts(Seq::<(String, u64)>::empty()) =~= Seq::empty());
                    assert(Seq::<(Seq<char>, u64)>::empty() + scan_entries(ls, p) =~= scan_entries(ls, p));
                }
            }
            lemma_root_leaves(self.root);
            assert forall|k: Seq<u8>, v: u64| #[trigger] ls.contains((k, v)) <==> (self@.dom().contains(k) && self@[k] == v) by {
                self.lemma_entry(k);

            }
            assert forall|j: int| 0 <= j < out@.len() implies starts_with(#[trigger] encode_utf8(out@[j].0@), p)
                && self@.dom().contains(encode_utf8(out@[j].0@)) && self@[encode_utf8(out@[j].0@)]
                == out@[j].1 by {
                assert(texts(out@)[j] == (out@[j].0@, out@[j].1));
                lemma_scan_member(ls, p, j);
                let i = choose|i: int|
                    0 <= i < ls.len() && starts_with(#[trigger] ls[i].0, p) && valid_utf8(ls[i].0)
                        && scan_entries(ls, p)[j] == (decode_utf8(ls[i].0), ls[i].1);
                decode_utf8_encode_utf8(ls[i].0);
                assert(ls.contains((ls[i].0, ls[i].1)));
            }
            assert forall|k: Seq<u8>| #[trigger] self@.dom().contains(k) && starts_with(k, p) implies exists|j: int|
                0 <= j < out@.len() && encode_utf8(out@[j].0@) == k by {
                assert(ls.contains((k, self@[k])));
                let i = choose|i: int| 0 <= i < ls.len() && ls[i] == (k, self@[k]);
                lemma_scan_complete(ls, p, i);
                let j = choose|j: int|
                    0 <= j < scan_entries(ls, p).len() && #[trigger] scan_entries(ls, p)[j] == (decode_utf8(ls[i].0), ls[i].1);
                assert(texts(out@)[j] == (out@[j].0@, out@[j].1));
                decode_utf8_encode_utf8(k);
            }
            assert(keys_unique(ls));
            lemma_scan_unique(ls, p);
            assert forall|a: int, b: int| 0 <= a < b < out@.len() implies #[trigger] out@[a].0@ != #[trigger] out@[b].0@ by {
                assert(texts(out@)[a] == (out@[a].0@, out@[a].1));
                assert(texts(out@)[b] == (out@[b].0@, out@[b].1));
                assert(scan_entries(ls, p)[a].0 != scan_entries(ls, p)[b].0);
            }
        }
        out
    }

    /// The view holds exactly what lookup finds.
    proof fn lemma_entry(&self, k: Seq<u8>)
        ensures
            entry(self@, k) == lookup_root(self.root, k),
    {
        assert(self@.dom().contains(k) == (lookup_root(self.root, k) is Some));
    }

    /// Value stored under `key`, if any.
    pub fn get(&self, key: &str) -> (r: Option<u64>)
        requires
            self.wf(),
        ensures
            r == entry(self@, key.spec_bytes()),
    {
        let kb = key.as_bytes();
        let ghost k = kb@;
        proof {
            self.lemma_entry(k);
        }
        let root = match &self.root {
            Some(r) => r,
            None => return None,
        };
        let mut node: &Node = &**root;
        let mut depth: usize = 0;
        proof {
            self.lemma_entry(k);
            assert(k.take(0) =~= Seq::<u8>::empty());
        }
        loop
            invariant
                depth <= k.len(),
                kb@ == k,
                k == key.spec_bytes(),
                k.len() == kb.len(),
                wf(*node, k.take(depth as int)),
                lookup_root(self.root, k) == lookup(*node, k, depth as int),
                entry(self@, k) == lookup_root(self.root, k),
            decreases k.len() - depth,
        {
            match node {
                Node::Leaf { key: lk, value } => {
                    return if bytes_eq(lk.as_slice(), kb) {
                        Some(*value)
                    } else {
                        None
                    };
                },
                Node::Inner4 { prefix, keys, children, n } => {
                    if !matches_prefix(kb, depth, prefix.as_slice()) {
                        return None;
                    }
                    let d2 = depth + prefix.len();
                    if d2 >= kb.len() {
                        return None;
                    }
                    let b = kb[d2];
                    let i = find_small(keys, *n, b);
                    if i >= *n as usize {
                        return None;
                    }
                    proof {
                        lemma_first_slot(keys@, b, 0, *n as int);
                        assert(count_of(*node) == *n as int);
                        lemma_small_child(*node, k.take(depth as int), i as int);
                        assert(prefix@ =~= k.subrange(depth as int, d2 as int));
                        assert(k.take(depth as int) + prefix@ + seq![keys@[i as int]] =~= k.take(
                            d2 + 1,
                        ));
                    }
                    node = match &children[i] {
                        Some(c) => &**c,
                        None => return None,
                    };
                    depth = d2 + 1;
                },
                Node::Inner16 { prefix, keys, children, n } => {
                    if !matches_prefix(kb, depth, prefix.as_slice()) {
                        return None;
                    }
                    let d2 = depth + prefix.len();
                    if d2 >= kb.len() {
                        return None;
                    }
                    let b = kb[d2];
                    let i = match find_child_byte16(keys, *n, b) {
                        Some(i) => i,
                        None => return None,
                    };
                    proof {
                        lemma_first_slot(keys@, b, 0, *n as int);
                        assert(count_of(*node) == *n as int);
                        lemma_small_child(*node, k.take(depth as int), i as int);
                        assert(prefix@ =~= k.subrange(depth as int, d2 as int));
                        assert(k.take(depth as int) + prefix@ + seq![keys@[i as int]] =~= k.take(
                            d2 + 1,
                        ));
                    }
                    node = match &children[i] {
                        Some(c) => &**c,
                        None => return None,
                    };
                    depth = d2 + 1;
                },
                Node::Inner48 { prefix, keys, children, .. } => {
                    if !matches_prefix(kb, depth, prefix.as_slice()) {
                        return None;
                    }
                    let d2 = depth + prefix.len();
                    if d2 >= kb.len() {
                        return None;
                    }
                    let b = kb[d2] as usize;
                    let idx = keys[b];
                    if idx == 0 {
                        return None;
                    }
                    proof {
                        assert(k.take(depth as int) + prefix@ + seq![b as u8] =~= k.take(d2 + 1));
                    }
                    node = match &children[idx as usize - 1] {
                        Some(c) => &**c,
                        None => return None,
                    };
                    depth = d2 + 1;
                },
                Node::Inner256 { prefix, children, .. } => {
                    if !matches_prefix(kb, depth, prefix.as_slice()) {
                        return None;
                    }
                    let d2 = depth + prefix.len();
                    if d2 >= kb.len() {
                        return None;
                    }
                    let b = kb[d2] as usize;
                    proof {
                        assert(k.take(depth as int) + prefix@ + seq![b as u8] =~= k.take(d2 + 1));
                    }
                    node = match &children[b] {
                        Some(c) => &**c,
                        None => return None,
                    };
                    depth = d2 + 1;
                },
            }
        }
    }
}

impl Default for ArtIndex {
    /// An empty index.
    fn default() -> (r: Self)
        ensures
            r.wf(),
            r@ == Map::<Seq<u8>, u64>::empty(),
            r.size() == 0,
    {
        Self::new()
    }
}

// ---------------------------------------------------------------------------
// Laws
// ---------------------------------------------------------------------------

/// A read after a write: after inserting `k` with `v`, `k` reads `v` and
/// every other key reads as before.
pub proof fn law_get_after_insert(m: Map<Seq<u8>, u64>, k: Seq<u8>, v: u64, k2: Seq<u8>)
    ensures
        entry(m.insert(k, v), k2) == if k2 == k {
            Some(v)
        } else {
            entry(m, k2)
        },
{
}

/// After deleting `k`, `k` reads nothing and every other key reads as
/// before.
pub proof fn law_get_after_delete(m: Map<Seq<u8>, u64>, k: Seq<u8>, k2: Seq<u8>)
    ensures
        entry(m.remove(k), k2) == if k2 == k {
            None
        } else {
            entry(m, k2)
        },
{
}

/// Deleting a key that was just inserted (and was not stored before)
/// restores the index's contents; inserting a key twice keeps the last
/// value.
pub proof fn law_insert_delete_roundtrip(m: Map<Seq<u8>, u64>, k: Seq<u8>, v: u64, w: u64)
    ensures
        !m.dom().contains(k) ==> m.insert(k, v).remove(k) == m,
        m.insert(k, v).insert(k, w) == m.insert(k, w),
{
    if !m.dom().contains(k) {
        assert(m.insert(k, v).remove(k) =~= m);
    }
    assert(m.insert(k, v).insert(k, w) =~= m.insert(k, w));
}


/// A prefix scan returns as many entries as there are stored keys with the
/// prefix: its entries are stored keys with the prefix, every such key
/// appears, and no key repeats (what `scan_prefix` ensures of its result's
/// key texts `keys`).
pub proof fn law_scan_prefix_count(m: Map<Seq<u8>, u64>, p: Seq<u8>, keys: Seq<Seq<char>>)
    requires
        forall|j: int| 0 <= j < keys.len() ==> starts_with(#[trigger] encode_utf8(keys[j]), p) && m.dom().contains(encode_utf8(keys[j])),
        forall|k: Seq<u8>| #[trigger] m.dom().contains(k) && starts_with(k, p) ==> exists|j: int| 0 <= j < keys.len() && encode_utf8(keys[j]) == k,
        forall|a: int, b: int| 0 <= a < b < keys.len() ==> #[trigger] keys[a] != #[trigger] keys[b],
    ensures
        m.dom().filter(|k: Seq<u8>| starts_with(k, p)).finite(),
        keys.len() == m.dom().filter(|k: Seq<u8>| starts_with(k, p)).len(),
{
    let bs = keys.map_values(|t: Seq<char>| encode_utf8(t));
    let sel = m.dom().filter(|k: Seq<u8>| starts_with(k, p));
    assert(bs.no_duplicates()) by {
        assert forall|a: int, b: int| 0 <= a < bs.len() && 0 <= b < bs.len() && a != b implies bs[a] != bs[b] by {
            encode_utf8_decode_utf8(keys[a]);
            encode_utf8_decode_utf8(keys[b]);
            if a < b {
                assert(keys[a] != keys[b]);
            } else {
                assert(keys[b] != keys[a]);
            }
        }
    }
    assert(bs.to_set() =~= sel) by {
        assert forall|k: Seq<u8>| bs.to_set().contains(k) <==> sel.contains(k) by {
            if bs.to_set().contains(k) {
                let j = choose|j: int| 0 <= j < bs.len() && bs[j] == k;
                assert(encode_utf8(keys[j]) == k);
            }
            if sel.contains(k) {
                let j = choose|j: int| 0 <= j < keys.len() && encode_utf8(keys[j]) == k;
                assert(bs[j] == k);
                assert(bs.contains(k));
            }
        }
    }
    bs.unique_seq_to_set();
}

} // verus!
