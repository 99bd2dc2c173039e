//! Audit ledger entries: the links of a hash chain of checkpoints, each
//! with a snapshot of the cognitive side tables, and their storage keys.
use vstd::prelude::*;
use vstd::bytes::*;
use vstd::slice::*;
use vstd::utf8::encode_utf8;
use crate::memory_doc::{MemoryState, state_code, state_of_code};
use crate::order::bytes_lt;
use crate::wire::{
    bytes_at, lemma_bytes_at_concat, lemma_bytes_at_prefix, lemma_le_bytes_roundtrip, push_bytes, push_str16, push_u32,
    push_u64, rd_u32, rd_u64, read_str16, str16_wire, StrFieldError,
};

verus! {

pub const AUDIT_MAGIC: [u8; 4] = [65, 85, 68, 49];

pub const AUDIT_VERSION: u8 = 1;

/// Checkpoint with a snapshot (what a rollback restores).
pub const AUDIT_OP_CHECKPOINT: u8 = 0;

/// Marker of an applied rollback (closes the link, no snapshot of its own).
pub const AUDIT_OP_ROLLBACK: u8 = 1;

/// One link of the ledger.
#[derive(Clone, Debug, PartialEq)]
pub struct AuditEntry {
    /// Monotonic sequence number (key `sys/audit/<seq:016x>`).
    pub seq: u64,
    /// Hash of the previous encoded entry (0 for the first link).
    pub prev_hash: u64,
    /// Caller's clock at the checkpoint or rollback.
    pub ts: u64,
    /// `AUDIT_OP_CHECKPOINT` or `AUDIT_OP_ROLLBACK`.
    pub op: u8,
    /// Digest of the current state (after the restore, for a rollback).
    pub digest: u64,
    /// Snapshot of the cognitive side tables (empty for markers).
    pub snapshot: Vec<AuditSnapshotItem>,
}

/// Cognitive state of one memory at an instant.
#[derive(Clone, Debug, PartialEq)]
pub struct AuditSnapshotItem {
    /// Canonical storage key.
    pub sk: String,
    /// Logical state.
    pub state: MemoryState,
    /// Bi-temporal window (`None` = no window).
    pub validity: Option<(u64, u64)>,
    /// Encoded meta (empty for records without one).
    pub meta: Vec<u8>,
}

/// Abstract snapshot item.
pub struct AuditItemModel {
    pub sk: Seq<char>,
    pub state: MemoryState,
    pub validity: Option<(u64, u64)>,
    pub meta: Seq<u8>,
}

/// Abstract ledger entry.
pub struct AuditEntryModel {
    pub seq: u64,
    pub prev_hash: u64,
    pub ts: u64,
    pub op: u8,
    pub digest: u64,
    pub snapshot: Seq<AuditItemModel>,
}

impl View for AuditSnapshotItem {
    type V = AuditItemModel;

    open spec fn view(&self) -> AuditItemModel {
        AuditItemModel { sk: self.sk@, state: self.state, validity: self.validity, meta: self.meta@ }
    }
}

/// Views of a list of items.
pub open spec fn item_views(v: Seq<AuditSnapshotItem>) -> Seq<AuditItemModel> {
    v.map_values(|it: AuditSnapshotItem| it@)
}

impl View for AuditEntry {
    type V = AuditEntryModel;

    open spec fn view(&self) -> AuditEntryModel {
        AuditEntryModel {
            seq: self.seq,
            prev_hash: self.prev_hash,
            ts: self.ts,
            op: self.op,
            digest: self.digest,
            snapshot: item_views(self.snapshot@),
        }
    }
}

/// Bytes of a validity window: flag 0, or flag 1 and both bounds.
pub open spec fn validity_wire(v: Option<(u64, u64)>) -> Seq<u8> {
    match v {
        Some((from, until)) => seq![1u8] + spec_u64_to_le_bytes(from) + spec_u64_to_le_bytes(until),
        None => seq![0u8],
    }
}

/// Bytes of a snapshot item.
pub open spec fn item_wire(m: AuditItemModel) -> Seq<u8> {
    str16_wire(m.sk) + seq![state_code(m.state)] + validity_wire(m.validity) + spec_u32_to_le_bytes(
        m.meta.len() as u32,
    ) + m.meta
}

/// An item whose lengths fit their fields.
pub open spec fn item_ok(m: AuditItemModel) -> bool {
    encode_utf8(m.sk).len() <= u16::MAX && m.meta.len() <= u32::MAX
}

/// Bytes of a list of items, one after the other.
pub open spec fn items_wire(ms: Seq<AuditItemModel>) -> Seq<u8>
    decreases ms.len(),
{
    if ms.len() == 0 {
        Seq::empty()
    } else {
        items_wire(ms.drop_last()) + item_wire(ms.last())
    }
}

/// The magic "AUD1".
pub open spec fn audit_magic() -> Seq<u8> {
    seq![65u8, 85u8, 68u8, 49u8]
}

/// Fixed-size head of an entry (42 bytes).
pub open spec fn audit_head(m: AuditEntryModel) -> Seq<u8> {
    audit_magic() + seq![1u8] + spec_u64_to_le_bytes(m.seq) + spec_u64_to_le_bytes(m.prev_hash)
        + spec_u64_to_le_bytes(m.ts) + seq![m.op] + spec_u64_to_le_bytes(m.digest)
        + spec_u32_to_le_bytes(m.snapshot.len() as u32)
}

/// Bytes of an entry.
pub open spec fn audit_wire(m: AuditEntryModel) -> Seq<u8> {
    audit_head(m) + items_wire(m.snapshot)
}

/// An entry that encodes faithfully: a known operation and lengths that fit
/// their fields.
pub open spec fn audit_ok(m: AuditEntryModel) -> bool {
    &&& (m.op == AUDIT_OP_CHECKPOINT || m.op == AUDIT_OP_ROLLBACK)
    &&& m.snapshot.len() <= u32::MAX
    &&& forall|i: int| 0 <= i < m.snapshot.len() ==> item_ok(#[trigger] m.snapshot[i])
}

proof fn lemma_audit_head_len(m: AuditEntryModel)
    ensures
        audit_head(m).len() == 42,
{
    lemma_le_bytes_roundtrip();
}

/// The bytes of the first `j` items start the bytes of all of them.
proof fn lemma_items_prefix(ms: Seq<AuditItemModel>, j: int)
    requires
        0 <= j <= ms.len(),
    ensures
        items_wire(ms.take(j)).len() <= items_wire(ms).len(),
        items_wire(ms).subrange(0, items_wire(ms.take(j)).len() as int) == items_wire(ms.take(j)),
    decreases ms.len(),
{
    if j == ms.len() {
        assert(ms.take(j) =~= ms);
    } else {
        lemma_items_prefix(ms.drop_last(), j);
        assert(ms.drop_last().take(j) =~= ms.take(j));
        let a = items_wire(ms.drop_last());
        let b = item_wire(ms.last());
        assert((a + b).subrange(0, items_wire(ms.take(j)).len() as int) =~= a.subrange(
            0,
            items_wire(ms.take(j)).len() as int,
        ));
    }
}

/// The bytes of `j + 1` items are those of `j` items and item `j`.
proof fn lemma_items_step(ms: Seq<AuditItemModel>, j: int)
    requires
        0 <= j < ms.len(),
    ensures
        items_wire(ms.take(j + 1)) == items_wire(ms.take(j)) + item_wire(ms[j]),
{
    assert(ms.take(j + 1).drop_last() =~= ms.take(j));
    assert(ms.take(j + 1).last() == ms[j]);
}

/// Where the fields of an item sit when its bytes are at `off`.
proof fn lemma_item_fields(data: Seq<u8>, off: int, m: AuditItemModel)
    requires
        bytes_at(data, off, item_wire(m)),
    ensures
        bytes_at(data, off, str16_wire(m.sk)),
        ({
            let o1 = off + str16_wire(m.sk).len();
            let o4 = o1 + 2 + if m.validity is Some {
                16int
            } else {
                0int
            };
            &&& data[o1] == state_code(m.state)
            &&& data[o1 + 1] == (if m.validity is Some {
                1u8
            } else {
                0u8
            })
            &&& (m.validity matches Some((f, u)) ==> bytes_at(data, o1 + 2, spec_u64_to_le_bytes(f))
                && bytes_at(data, o1 + 10, spec_u64_to_le_bytes(u)))
            &&& bytes_at(data, o4, spec_u32_to_le_bytes(m.meta.len() as u32))
            &&& bytes_at(data, o4 + 4, m.meta)
            &&& off + item_wire(m).len() == o4 + 4 + m.meta.len()
        }),
{
    lemma_le_bytes_roundtrip();
    let a = str16_wire(m.sk);
    let b = seq![state_code(m.state)];
    let c = validity_wire(m.validity);
    let d = spec_u32_to_le_bytes(m.meta.len() as u32);
    let e = m.meta;
    assert(item_wire(m) == a + b + c + d + e);
    lemma_bytes_at_concat(data, off, a + b + c + d, e);
    lemma_bytes_at_concat(data, off, a + b + c, d);
    lemma_bytes_at_concat(data, off, a + b, c);
    lemma_bytes_at_concat(data, off, a, b);
    let o1 = off + a.len();
    assert(data[o1] == data.subrange(o1, o1 + 1)[0]);
    match m.validity {
        Some((f, u)) => {
            lemma_bytes_at_concat(data, o1 + 1, seq![1u8] + spec_u64_to_le_bytes(f), spec_u64_to_le_bytes(u));
            lemma_bytes_at_concat(data, o1 + 1, seq![1u8], spec_u64_to_le_bytes(f));
            assert(data[o1 + 1] == data.subrange(o1 + 1, o1 + 2)[0]);
        },
        None => {
            assert(data[o1 + 1] == data.subrange(o1 + 1, o1 + 2)[0]);
        },
    }
}

/// An item read field by field from `off` sits there as a whole, and is
/// the only item whose bytes sit there.
proof fn lemma_item_read(data: Seq<u8>, off: int, it: AuditItemModel, o1: int, metalen: int)
    requires
        encode_utf8(it.sk).len() <= u16::MAX,
        bytes_at(data, off, str16_wire(it.sk)),
        o1 == off + str16_wire(it.sk).len(),
        o1 + 1 < data.len(),
        data[o1] == state_code(it.state),
        data[o1 + 1] == (if it.validity is Some {
            1u8
        } else {
            0u8
        }),
        it.validity matches Some((f, u)) ==> o1 + 18 <= data.len() && f == spec_u64_from_le_bytes(
            data.subrange(o1 + 2, o1 + 10),
        ) && u == spec_u64_from_le_bytes(data.subrange(o1 + 10, o1 + 18)),
        ({
            let o4 = o1 + 2 + if it.validity is Some {
                16int
            } else {
                0int
            };
            &&& o4 + 4 <= data.len()
            &&& metalen == spec_u32_from_le_bytes(data.subrange(o4, o4 + 4))
            &&& it.meta.len() == metalen
            &&& o4 + 4 + metalen <= data.len()
            &&& it.meta == data.subrange(o4 + 4, o4 + 4 + metalen)
        }),
        forall|m: AuditItemModel|
            item_ok(m) && #[trigger] bytes_at(data, off, item_wire(m)) ==> m.sk == it.sk,
    ensures
        item_ok(it),
        bytes_at(data, off, item_wire(it)),
        off + item_wire(it).len() == o1 + 2 + (if it.validity is Some {
            16int
        } else {
            0int
        }) + 4 + metalen,
        forall|m: AuditItemModel| item_ok(m) && #[trigger] bytes_at(data, off, item_wire(m)) ==> it == m,
{
    lemma_le_bytes_roundtrip();
    let o2 = o1 + 1;
    let o3 = o1 + 2;
    let o4 = o1 + 2 + if it.validity is Some {
        16int
    } else {
        0int
    };
    let a = str16_wire(it.sk);
    let b = seq![state_code(it.state)];
    let c = validity_wire(it.validity);
    let d = spec_u32_to_le_bytes(metalen as u32);
    assert(item_wire(it) == a + b + c + d + it.meta);
    assert(bytes_at(data, o1, b)) by {
        assert(data.subrange(o1, o1 + 1) =~= b);
    }
    assert(bytes_at(data, o2, c)) by {
        match it.validity {
            Some((f, u)) => {
                assert(data.subrange(o3, o3 + 8) == spec_u64_to_le_bytes(f));
                assert(data.subrange(o3 + 8, o3 + 16) == spec_u64_to_le_bytes(u));
                assert(data.subrange(o2, o2 + 17) =~= c);
            },
            None => {
                assert(data.subrange(o2, o2 + 1) =~= c);
            },
        }
    }
    assert(bytes_at(data, o4, d)) by {
        assert(data.subrange(o4, o4 + 4) == d);
    }
    lemma_bytes_at_concat(data, off, a, b);
    lemma_bytes_at_concat(data, off, a + b, c);
    lemma_bytes_at_concat(data, off, a + b + c, d);
    lemma_bytes_at_concat(data, off, a + b + c + d, it.meta);
    assert forall|m: AuditItemModel| item_ok(m) && #[trigger] bytes_at(data, off, item_wire(m)) implies it
        == m by {
        lemma_item_fields(data, off, m);
        assert(m.state == it.state) by {
            assert(state_of_code(state_code(m.state)) == Some(m.state));
            assert(state_of_code(state_code(it.state)) == Some(it.state));
        }
        match m.validity {
            Some((f, u)) => {
                assert(data.subrange(o3, o3 + 8) == spec_u64_to_le_bytes(f));
                assert(data.subrange(o3 + 8, o3 + 16) == spec_u64_to_le_bytes(u));
            },
            None => {},
        }
        assert(m.meta.len() == metalen);
        assert(it.meta =~= m.meta);
    }
}

/// Reads the snapshot item at `off`: the item and the offset past it.
#[verifier::rlimit(60)]
fn read_item(data: &[u8], off: usize) -> (r: Result<(AuditSnapshotItem, usize), &'static str>)
    ensures
        r matches Ok((it, o2)) ==> item_ok(it@) && bytes_at(data@, off as int, item_wire(it@)) && o2
            == off + item_wire(it@).len(),
        forall|m: AuditItemModel|
            item_ok(m) && #[trigger] bytes_at(data@, off as int, item_wire(m)) ==> (r matches Ok((it, o2))
                && it@ == m && o2 == off + item_wire(m).len()),
{
    let (sk, o1) = match read_str16(data, off) {
        Ok(x) => x,
        Err(e) => {
            proof {
                assert forall|m: AuditItemModel| item_ok(m) && #[trigger] bytes_at(data@, off as int, item_wire(m)) implies false by {
                    lemma_item_fields(data@, off as int, m);
                }
            }
            return Err(match e {
                StrFieldError::TruncLen => "trunc sklen",
                StrFieldError::Overflow => "sklen overflow",
                StrFieldError::TruncBytes => "trunc sk",
                StrFieldError::Utf8 => "utf8 sk",
            });
        },
    };
    proof {
        assert forall|m: AuditItemModel| item_ok(m) && #[trigger] bytes_at(data@, off as int, item_wire(m)) implies m.sk
            == sk@ by {
            lemma_item_fields(data@, off as int, m);
        }
    }
    if o1 >= data.len() {
        proof {
            assert forall|m: AuditItemModel| item_ok(m) && #[trigger] bytes_at(data@, off as int, item_wire(m)) implies false by {
                lemma_item_fields(data@, off as int, m);
            }
        }
        return Err("trunc state");
    }
    let state = match MemoryState::from_u8(data[o1]) {
        Some(s) => s,
        None => {
            proof {
                assert forall|m: AuditItemModel| item_ok(m) && #[trigger] bytes_at(data@, off as int, item_wire(m)) implies false by {
                    lemma_item_fields(data@, off as int, m);
                }
            }
            return Err("bad state");
        },
    };
    let o2 = o1 + 1;
    if o2 >= data.len() {
        proof {
            assert forall|m: AuditItemModel| item_ok(m) && #[trigger] bytes_at(data@, off as int, item_wire(m)) implies false by {
                lemma_item_fields(data@, off as int, m);
            }
        }
        return Err("trunc vflag");
    }
    let vflag = data[o2];
    let o3 = o2 + 1;
    let validity = if vflag == 0 {
        None
    } else if vflag == 1 {
        let from = match rd_u64(data, o3) {
            Some(x) => x,
            None => {
                proof {
                    assert forall|m: AuditItemModel| item_ok(m) && #[trigger] bytes_at(data@, off as int, item_wire(m)) implies false by {
                        lemma_item_fields(data@, off as int, m);
                    }
                }
                return Err("trunc vfrom");
            },
        };
        let until = match rd_u64(data, o3 + 8) {
            Some(x) => x,
            None => {
                proof {
                    assert forall|m: AuditItemModel| item_ok(m) && #[trigger] bytes_at(data@, off as int, item_wire(m)) implies false by {
                        lemma_item_fields(data@, off as int, m);
                    }
                }
                return Err("trunc vuntil");
            },
        };
        Some((from, until))
    } else {
        proof {
            assert forall|m: AuditItemModel| item_ok(m) && #[trigger] bytes_at(data@, off as int, item_wire(m)) implies false by {
                lemma_item_fields(data@, off as int, m);
            }
        }
        return Err("bad vflag");
    };
    let o4 = if vflag == 0 {
        o3
    } else {
        o3 + 16
    };
    let metalen = match rd_u32(data, o4) {
        Some(x) => x as usize,
        None => {
            proof {
                assert forall|m: AuditItemModel| item_ok(m) && #[trigger] bytes_at(data@, off as int, item_wire(m)) implies false by {
                    lemma_item_fields(data@, off as int, m);
                }
            }
            return Err("trunc metalen");
        },
    };
    let o5 = o4 + 4;
    let end = match o5.checked_add(metalen) {
        Some(e) => e,
        None => {
            proof {
                assert forall|m: AuditItemModel| item_ok(m) && #[trigger] bytes_at(data@, off as int, item_wire(m)) implies false by {
                    lemma_item_fields(data@, off as int, m);
                    lemma_le_bytes_roundtrip();
                    assert(data@.subrange(o4 as int, o4 + 4) == spec_u32_to_le_bytes(m.meta.len() as u32));
                }
            }
            return Err("metalen overflow");
        },
    };
    if end > data.len() {
        proof {
            assert forall|m: AuditItemModel| item_ok(m) && #[trigger] bytes_at(data@, off as int, item_wire(m)) implies false by {
                lemma_item_fields(data@, off as int, m);
                    lemma_le_bytes_roundtrip();
                    assert(data@.subrange(o4 as int, o4 + 4) == spec_u32_to_le_bytes(m.meta.len() as u32));
            }
        }
        return Err("trunc meta");
    }
    let meta = slice_to_vec(slice_subrange(data, o5, end));
    let it = AuditSnapshotItem { sk, state, validity, meta };
    proof {
        lemma_item_read(data@, off as int, it@, o1 as int, metalen as int);
    }
    Ok((it, end))
}

/// Appends the bytes of a snapshot item.
fn push_item(out: &mut Vec<u8>, it: &AuditSnapshotItem)
    ensures
        final(out)@ == old(out)@ + item_wire(it@),
{
    push_str16(out, it.sk.as_str());
    out.push(it.state.to_u8());
    match it.validity {
        Some((from, until)) => {
            out.push(1);
            push_u64(out, from);
            push_u64(out, until);
        },
        None => out.push(0),
    }
    push_u32(out, it.meta.len() as u32);
    push_bytes(out, it.meta.as_slice());
    assert(final(out)@ =~= old(out)@ + item_wire(it@));
}

/// Where the head fields sit when an entry's bytes start the data.
proof fn lemma_head_fields(data: Seq<u8>, m: AuditEntryModel)
    requires
        bytes_at(data, 0, audit_wire(m)),
    ensures
        bytes_at(data, 0, audit_head(m)),
        bytes_at(data, 42, items_wire(m.snapshot)),
        data.len() >= 42,
        data.subrange(0, 4) == audit_magic(),
        data[4] == 1,
        data.subrange(5, 13) == spec_u64_to_le_bytes(m.seq),
        data.subrange(13, 21) == spec_u64_to_le_bytes(m.prev_hash),
        data.subrange(21, 29) == spec_u64_to_le_bytes(m.ts),
        data[29] == m.op,
        data.subrange(30, 38) == spec_u64_to_le_bytes(m.digest),
        data.subrange(38, 42) == spec_u32_to_le_bytes(m.snapshot.len() as u32),
{
    lemma_le_bytes_roundtrip();
    lemma_audit_head_len(m);
    lemma_bytes_at_concat(data, 0, audit_head(m), items_wire(m.snapshot));
    let h = audit_head(m);
    assert(data.subrange(0, 42) == h);
    assert(data.subrange(0, 4) =~= h.subrange(0, 4));
    assert(data.subrange(5, 13) =~= h.subrange(5, 13));
    assert(data.subrange(13, 21) =~= h.subrange(13, 21));
    assert(data.subrange(21, 29) =~= h.subrange(21, 29));
    assert(data.subrange(30, 38) =~= h.subrange(30, 38));
    assert(data.subrange(38, 42) =~= h.subrange(38, 42));
    assert(data[4] == h[4]);
    assert(data[29] == h[29]);
}

proof fn lemma_item_views_push(v: Seq<AuditSnapshotItem>, it: AuditSnapshotItem)
    ensures
        item_views(v.push(it)) == item_views(v).push(it@),
{
    assert(item_views(v.push(it)) =~= item_views(v).push(it@));
}

impl AuditEntry {
    /// Bytes of the entry (lengths are cut to their field widths).
    pub fn encode(&self) -> (r: Vec<u8>)
        ensures
            r@ == audit_wire(self@),
    {
        let mut out: Vec<u8> = Vec::new();
        out.push(65u8);
        out.push(85u8);
        out.push(68u8);
        out.push(49u8);
        out.push(AUDIT_VERSION);
        push_u64(&mut out, self.seq);
        push_u64(&mut out, self.prev_hash);
        push_u64(&mut out, self.ts);
        out.push(self.op);
        push_u64(&mut out, self.digest);
        push_u32(&mut out, self.snapshot.len() as u32);
        let ghost head = out@;
        assert(head =~= audit_head(self@));
        let mut i: usize = 0;
        while i < self.snapshot.len()
            invariant
                0 <= i <= self.snapshot@.len(),
                out@ == head + items_wire(item_views(self.snapshot@).take(i as int)),
            decreases self.snapshot@.len() - i,
        {
            push_item(&mut out, &self.snapshot[i]);
            proof {
                lemma_items_step(item_views(self.snapshot@), i as int);
            }
            i += 1;
            assert(out@ =~= head + items_wire(item_views(self.snapshot@).take(i as int)));
        }
        assert(item_views(self.snapshot@).take(i as int) =~= item_views(self.snapshot@));
        out
    }

    /// Decodes an entry, bounds-checked (trailing bytes are ignored): the
    /// entry whose bytes start `data`, or why there is none.
    pub fn decode(data: &[u8]) -> (r: Result<Self, &'static str>)
        ensures
            data@.len() < 30 || data@.subrange(0, 4) != audit_magic() ==> r == Err::<Self, &'static str>(
                "bad audit magic",
            ),
            data@.len() >= 30 && data@.subrange(0, 4) == audit_magic() && data@[4] != AUDIT_VERSION
                ==> r == Err::<Self, &'static str>("bad audit version"),
            data@.len() >= 30 && data@.subrange(0, 4) == audit_magic() && data@[4] == AUDIT_VERSION
                && data@[29] != AUDIT_OP_CHECKPOINT && data@[29] != AUDIT_OP_ROLLBACK
                ==> r == Err::<Self, &'static str>("bad audit op"),
            r matches Ok(e) ==> audit_ok(e@) && bytes_at(data@, 0, audit_wire(e@)),
            forall|m: AuditEntryModel|
                audit_ok(m) && #[trigger] bytes_at(data@, 0, audit_wire(m)) ==> (r matches Ok(e) && e@
                    == m),
    {
        proof {
            lemma_le_bytes_roundtrip();
        }
        if data.len() < 30 || data[0] != 65 || data[1] != 85 || data[2] != 68 || data[3] != 49 {
            proof {
                if data@.len() >= 30 {
                    assert(data@.subrange(0, 4) != audit_magic()) by {
                        assert(data@.subrange(0, 4)[0] == data@[0]);
                        assert(data@.subrange(0, 4)[1] == data@[1]);
                        assert(data@.subrange(0, 4)[2] == data@[2]);
                        assert(data@.subrange(0, 4)[3] == data@[3]);
                    }
                }
                assert forall|m: AuditEntryModel| audit_ok(m) && #[trigger] bytes_at(data@, 0, audit_wire(m)) implies false by {
                    lemma_head_fields(data@, m);
                    assert(data@.subrange(0, 4)[0] == data@[0]);
                    assert(data@.subrange(0, 4)[1] == data@[1]);
                    assert(data@.subrange(0, 4)[2] == data@[2]);
                    assert(data@.subrange(0, 4)[3] == data@[3]);
                }
            }
            return Err("bad audit magic");
        }
        proof {
            assert(data@.subrange(0, 4) =~= audit_magic());
        }
        if data[4] != AUDIT_VERSION {
            proof {
                assert forall|m: AuditEntryModel| audit_ok(m) && #[trigger] bytes_at(data@, 0, audit_wire(m)) implies false by {
                    lemma_head_fields(data@, m);
                }
            }
            return Err("bad audit version");
        }
        let seq = match rd_u64(data, 5) {
            Some(x) => x,
            None => return Err("trunc seq"),
        };
        let prev_hash = match rd_u64(data, 13) {
            Some(x) => x,
            None => return Err("trunc prev"),
        };
        let ts = match rd_u64(data, 21) {
            Some(x) => x,
            None => return Err("trunc ts"),
        };
        let op = data[29];
        if !(op == AUDIT_OP_CHECKPOINT || op == AUDIT_OP_ROLLBACK) {
            proof {
                assert forall|m: AuditEntryModel| audit_ok(m) && #[trigger] bytes_at(data@, 0, audit_wire(m)) implies false by {
                    lemma_head_fields(data@, m);
                }
            }
            return Err("bad audit op");
        }
        let digest = match rd_u64(data, 30) {
            Some(x) => x,
            None => {
                proof {
                    assert forall|m: AuditEntryModel| audit_ok(m) && #[trigger] bytes_at(data@, 0, audit_wire(m)) implies false by {
                        lemma_head_fields(data@, m);
                    }
                }
                return Err("trunc digest");
            },
        };
        let n = match rd_u32(data, 38) {
            Some(x) => x as usize,
            None => {
                proof {
                    assert forall|m: AuditEntryModel| audit_ok(m) && #[trigger] bytes_at(data@, 0, audit_wire(m)) implies false by {
                        lemma_head_fields(data@, m);
                    }
                }
                return Err("trunc nsnap");
            },
        };
        proof {
            assert forall|m: AuditEntryModel| audit_ok(m) && #[trigger] bytes_at(data@, 0, audit_wire(m)) implies m.seq
                == seq && m.prev_hash == prev_hash && m.ts == ts && m.op == op && m.digest == digest
                && m.snapshot.len() == n by {
                lemma_head_fields(data@, m);
            }
        }
        let mut snapshot: Vec<AuditSnapshotItem> = Vec::new();
        let mut off: usize = 42;
        let mut i: usize = 0;
        proof {
            assert(item_views(snapshot@) =~= Seq::<AuditItemModel>::empty());
            assert(items_wire(Seq::<AuditItemModel>::empty()) =~= Seq::<u8>::empty());
            assert(data@.subrange(42, 42) =~= Seq::<u8>::empty());
        }
        while i < n
            invariant
                data@.len() >= 42,
                data@.subrange(0, 4) == audit_magic(),
                data@[4] == AUDIT_VERSION,
                data@[29] == AUDIT_OP_CHECKPOINT || data@[29] == AUDIT_OP_ROLLBACK,
                0 <= i <= n,
                snapshot@.len() == i,
                off == 42 + items_wire(item_views(snapshot@)).len(),
                bytes_at(data@, 42, items_wire(item_views(snapshot@))),
                forall|j: int| 0 <= j < i ==> item_ok(#[trigger] item_views(snapshot@)[j]),
                forall|m: AuditEntryModel|
                    audit_ok(m) && #[trigger] bytes_at(data@, 0, audit_wire(m)) ==> m.snapshot.len() == n
                        && item_views(snapshot@) == m.snapshot.take(i as int),
            decreases n - i,
        {
            let (it, o2) = match read_item(data, off) {
                Ok(x) => x,
                Err(e) => {
                    proof {
                        assert forall|m: AuditEntryModel| audit_ok(m) && #[trigger] bytes_at(data@, 0, audit_wire(m)) implies false by {
                            lemma_head_fields(data@, m);
                            lemma_items_prefix(m.snapshot, i + 1);
                            lemma_items_step(m.snapshot, i as int);
                            let w = items_wire(m.snapshot.take(i + 1));
                            lemma_bytes_at_prefix(data@, 42, items_wire(m.snapshot), w.len() as int);
                            lemma_bytes_at_concat(data@, 42, items_wire(m.snapshot.take(i as int)), item_wire(m.snapshot[i as int]));
                            assert(item_ok(m.snapshot[i as int]));
                        }
                    }
                    return Err(e);
                },
            };
            proof {
                lemma_item_views_push(snapshot@, it);
                lemma_items_step(item_views(snapshot@).push(it@), i as int);
                assert(item_views(snapshot@).push(it@).take(i as int) =~= item_views(snapshot@));
                assert(item_views(snapshot@).push(it@).take(i + 1) =~= item_views(snapshot@).push(it@));
                lemma_bytes_at_concat(data@, 42, items_wire(item_views(snapshot@)), item_wire(it@));
                assert forall|m: AuditEntryModel| audit_ok(m) && #[trigger] bytes_at(data@, 0, audit_wire(m)) implies item_views(
                    snapshot@,
                ).push(it@) == m.snapshot.take(i + 1) by {
                    lemma_head_fields(data@, m);
                    lemma_items_prefix(m.snapshot, i + 1);
                    lemma_items_step(m.snapshot, i as int);
                    let w = items_wire(m.snapshot.take(i + 1));
                    lemma_bytes_at_prefix(data@, 42, items_wire(m.snapshot), w.len() as int);
                    lemma_bytes_at_concat(data@, 42, items_wire(m.snapshot.take(i as int)), item_wire(m.snapshot[i as int]));
                    assert(item_ok(m.snapshot[i as int]));
                    assert(m.snapshot.take(i + 1) =~= m.snapshot.take(i as int).push(m.snapshot[i as int]));
                }
            }
            snapshot.push(it);
            off = o2;
            i += 1;
        }
        let e = AuditEntry { seq, prev_hash, ts, op, digest, snapshot };
        proof {
            assert(bytes_at(data@, 0, audit_head(e@))) by {
                lemma_audit_head_len(e@);
                assert(data@.subrange(0, 42) =~= audit_head(e@));
            }
            lemma_bytes_at_concat(data@, 0, audit_head(e@), items_wire(e@.snapshot));
            lemma_audit_head_len(e@);
            assert forall|m: AuditEntryModel| audit_ok(m) && #[trigger] bytes_at(data@, 0, audit_wire(m)) implies e@ == m by {
                assert(m.snapshot.take(n as int) =~= m.snapshot);
            }
        }
        Ok(e)
    }
}

// ---------------------------------------------------------------------------
// Keys
// ---------------------------------------------------------------------------

/// ASCII of "sys/audit/".
pub open spec fn audit_prefix() -> Seq<u8> {
    seq![115u8, 121u8, 115u8, 47u8, 97u8, 117u8, 100u8, 105u8, 116u8, 47u8]
}

/// Lower-case hex digit of a nibble.
pub open spec fn hex_digit(v: u64) -> u8 {
    if v < 10 {
        (48 + v) as u8
    } else {
        (87 + v) as u8
    }
}

/// Nibble `i` (most significant first) of `x`.
pub open spec fn nibble(x: u64, i: int) -> u64 {
    (x >> ((60 - 4 * i) as u64)) & 15u64
}

/// Sixteen lower-case hex digits of `x`, most significant first.
pub open spec fn hex16(x: u64) -> Seq<u8> {
    Seq::new(16, |i: int| hex_digit(nibble(x, i)))
}

/// Value of an ASCII hex digit (either case).
pub open spec fn hex_value(b: u8) -> Option<u64> {
    if 48 <= b <= 57 {
        Some((b - 48) as u64)
    } else if 97 <= b <= 102 {
        Some((b - 87) as u64)
    } else if 65 <= b <= 70 {
        Some((b - 55) as u64)
    } else {
        None
    }
}

/// Value of a run of hex digits, `None` when one is not a digit.
pub open spec fn hex_run(s: Seq<u8>) -> Option<int>
    decreases s.len(),
{
    if s.len() == 0 {
        Some(0)
    } else {
        match (hex_run(s.drop_last()), hex_value(s.last())) {
            (Some(v), Some(d)) => Some(v * 16 + d),
            _ => None,
        }
    }
}

/// Base-16 reading of text: an optional `+`, then at least one digit.
pub open spec fn radix16(s: Seq<u8>) -> Option<int> {
    if s.len() > 0 && s[0] == 43 {
        if s.len() > 1 {
            hex_run(s.subrange(1, s.len() as int))
        } else {
            None
        }
    } else if s.len() > 0 {
        hex_run(s)
    } else {
        None
    }
}

/// Storage key of a link: `sys/audit/` and the sequence number as sixteen
/// lower-case hex digits (fixed width, so keys sort as numbers do).
pub fn audit_key(seq: u64) -> (r: Vec<u8>)
    ensures
        r@ == audit_prefix() + hex16(seq),
{
    let mut k: Vec<u8> = vec![115u8, 121u8, 115u8, 47u8, 97u8, 117u8, 100u8, 105u8, 116u8, 47u8];
    let mut i: u64 = 0;
    while i < 16
        invariant
            0 <= i <= 16,
            k@ == audit_prefix() + hex16(seq).take(i as int),
        decreases 16 - i,
    {
        let sh = 60 - 4 * i;
        let v = (seq >> sh) & 15;
        assert(v < 16) by (bit_vector)
            requires
                v == (seq >> sh) & 15u64;
        let c = if v < 10 {
            (48 + v) as u8
        } else {
            (87 + v) as u8
        };
        k.push(c);
        proof {
            assert(v == nibble(seq, i as int));
            assert(hex16(seq).take(i + 1) =~= hex16(seq).take(i as int).push(c));
        }
        i += 1;
    }
    assert(hex16(seq).take(16) =~= hex16(seq));
    k
}

/// Value of a run of hex digits that fits in `u64`.
fn parse_hex_run(s: &[u8], from: usize) -> (r: Option<u64>)
    requires
        from <= s@.len(),
        s@.len() - from <= 16,
    ensures
        r == (match hex_run(s@.subrange(from as int, s@.len() as int)) {
            Some(v) => Some(v as u64),
            None => None,
        }),
        hex_run(s@.subrange(from as int, s@.len() as int)) matches Some(v) ==> 0 <= v <= u64::MAX,
{
    let mut acc: u64 = 0;
    let mut i: usize = from;
    proof {
        assert(s@.subrange(from as int, from as int) =~= Seq::<u8>::empty());
    }
    while i < s.len()
        invariant
            from <= i <= s@.len(),
            s@.len() - from <= 16,
            hex_run(s@.subrange(from as int, i as int)) == Some(acc as int),
            acc < pow16(i - from),
        decreases s@.len() - i,
    {
        let b = s[i];
        let d: u64 = if 48 <= b && b <= 57 {
            (b - 48) as u64
        } else if 97 <= b && b <= 102 {
            (b - 87) as u64
        } else if 65 <= b && b <= 70 {
            (b - 55) as u64
        } else {
            proof {
                lemma_hex_run_none(s@.subrange(from as int, s@.len() as int), (i - from) as int);
            }
            return None;
        };
        proof {
            assert(s@.subrange(from as int, i + 1).drop_last() =~= s@.subrange(from as int, i as int));
            lemma_pow16_step((i - from) as int);
            lemma_pow16_bound((i - from + 1) as int);
        }
        acc = acc * 16 + d;
        i += 1;
    }
    Some(acc)
}

/// Powers of sixteen.
pub open spec fn pow16(k: int) -> int
    decreases k,
{
    if k <= 0 {
        1
    } else {
        16 * pow16(k - 1)
    }
}

proof fn lemma_pow16_step(k: int)
    requires
        0 <= k,
    ensures
        pow16(k + 1) == 16 * pow16(k),
{
}

proof fn lemma_pow16_bound(k: int)
    requires
        0 <= k <= 16,
    ensures
        0 < pow16(k) <= 0x1_0000_0000_0000_0000,
{
    lemma_pow16_mono(k, 16);
    reveal_with_fuel(pow16, 17);
    assert(pow16(16) == 0x1_0000_0000_0000_0000);
}

proof fn lemma_pow16_mono(a: int, b: int)
    requires
        0 <= a <= b,
    ensures
        0 < pow16(a) <= pow16(b),
    decreases b,
{
    if a < b {
        lemma_pow16_mono(a, b - 1);
    } else if a > 0 {
        lemma_pow16_mono(a - 1, a - 1);
    }
}

/// A run with a non-digit at `j` has no value.
proof fn lemma_hex_run_none(s: Seq<u8>, j: int)
    requires
        0 <= j < s.len(),
        hex_value(s[j]) is None,
    ensures
        hex_run(s) is None,
    decreases s.len(),
{
    if j < s.len() - 1 {
        lemma_hex_run_none(s.drop_last(), j);
    }
}

/// Sequence number of a link key: `sys/audit/` and sixteen characters
/// read in base 16; `None` for any other key.
pub fn audit_seq_from_key(key: &[u8]) -> (r: Option<u64>)
    ensures
        r == (if key@.len() == 26 && key@.subrange(0, 10) == audit_prefix() && radix16(
            key@.subrange(10, 26),
        ) is Some {
            Some(radix16(key@.subrange(10, 26))->0 as u64)
        } else {
            None::<u64>
        }),
{
    if key.len() < 10 || key[0] != 115 || key[1] != 121 || key[2] != 115 || key[3] != 47
        || key[4] != 97 || key[5] != 117 || key[6] != 100 || key[7] != 105 || key[8] != 116
        || key[9] != 47 {
        proof {
            if key@.len() >= 10 && key@.subrange(0, 10) == audit_prefix() {
                assert(key@.subrange(0, 10)[0] == key@[0]);
                assert(key@.subrange(0, 10)[1] == key@[1]);
                assert(key@.subrange(0, 10)[2] == key@[2]);
                assert(key@.subrange(0, 10)[3] == key@[3]);
                assert(key@.subrange(0, 10)[4] == key@[4]);
                assert(key@.subrange(0, 10)[5] == key@[5]);
                assert(key@.subrange(0, 10)[6] == key@[6]);
                assert(key@.subrange(0, 10)[7] == key@[7]);
                assert(key@.subrange(0, 10)[8] == key@[8]);
                assert(key@.subrange(0, 10)[9] == key@[9]);
            }
        }
        return None;
    }
    if key.len() != 26 {
        return None;
    }
    proof {
        assert(key@.subrange(0, 10) =~= audit_prefix());
    }
    let hex = slice_subrange(key, 10, 26);
    let from: usize = if hex[0] == 43 {
        1
    } else {
        0
    };
    let v = parse_hex_run(hex, from);
    proof {
        assert(hex@ == key@.subrange(10, 26));
        if from == 0 {
            assert(hex@.subrange(0, 16) =~= hex@);
        }
    }
    v
}

/// A link key reads back as its sequence number.
pub proof fn law_audit_key_roundtrip(seq: u64)
    ensures
        ({
            let k = audit_prefix() + hex16(seq);
            &&& k.len() == 26
            &&& k.subrange(0, 10) == audit_prefix()
            &&& radix16(k.subrange(10, 26)) == Some(seq as int)
        }),
{
    let k = audit_prefix() + hex16(seq);
    assert(k.subrange(0, 10) =~= audit_prefix());
    assert(k.subrange(10, 26) =~= hex16(seq));
    lemma_hex16_value(seq, 16);
    assert(hex16(seq).take(16) =~= hex16(seq));
    assert((seq >> 0u64) == seq) by (bit_vector);
    assert(hex16(seq)[0] != 43) by {
        assert(nibble(seq, 0) < 16) by (bit_vector)
            requires
                nibble(seq, 0) == (seq >> 60u64) & 15u64;
    }
}

/// Byte order of two runs of equal length carries over when one byte more
/// is appended to each, and equal runs are ordered by the appended bytes.
proof fn lemma_lt_push(p: Seq<u8>, q: Seq<u8>, x: u8, y: u8)
    requires
        p.len() == q.len(),
        bytes_lt(p, q) || (p == q && x < y),
    ensures
        bytes_lt(p.push(x), q.push(y)),
    decreases p.len(),
{
    if p.len() > 0 {
        assert(p.push(x).drop_first() =~= p.drop_first().push(x));
        assert(q.push(y).drop_first() =~= q.drop_first().push(y));
        assert(p.push(x)[0] == p[0]);
        assert(q.push(y)[0] == q[0]);
        if p[0] == q[0] {
            lemma_lt_push(p.drop_first(), q.drop_first(), x, y);
        }
    }
}

/// A common prefix keeps the order of what follows it.
proof fn lemma_lt_common_prefix(c: Seq<u8>, x: Seq<u8>, y: Seq<u8>)
    requires
        bytes_lt(x, y),
    ensures
        bytes_lt(c + x, c + y),
    decreases c.len(),
{
    if c.len() > 0 {
        assert((c + x).drop_first() =~= c.drop_first() + x);
        assert((c + y).drop_first() =~= c.drop_first() + y);
        assert((c + x)[0] == c[0]);
        assert((c + y)[0] == c[0]);
        lemma_lt_common_prefix(c.drop_first(), x, y);
    } else {
        assert(c + x =~= x);
        assert(c + y =~= y);
    }
}

/// Value of the top `k` nibbles of `x`.
spec fn top_nibbles(x: u64, k: int) -> int {
    if k == 0 {
        0int
    } else {
        (x >> ((64 - 4 * k) as u64)) as int
    }
}

/// The first `k` digits of two numbers' keys compare as their top `k`
/// nibbles do.
proof fn lemma_hex16_order(a: u64, b: u64, k: int)
    requires
        0 <= k <= 16,
    ensures
        top_nibbles(a, k) < top_nibbles(b, k) ==> bytes_lt(hex16(a).take(k), hex16(b).take(k)),
        top_nibbles(a, k) == top_nibbles(b, k) ==> hex16(a).take(k) == hex16(b).take(k),
    decreases k,
{
    if k == 0 {
        assert(hex16(a).take(0) =~= hex16(b).take(0));
    } else {
        lemma_hex16_order(a, b, k - 1);
        let s = (64 - 4 * k) as u64;
        let na = nibble(a, k - 1);
        let nb = nibble(b, k - 1);
        assert(na == (a >> s) & 15u64);
        assert(nb == (b >> s) & 15u64);
        assert(na < 16) by (bit_vector)
            requires
                na == (a >> s) & 15u64;
        assert(nb < 16) by (bit_vector)
            requires
                nb == (b >> s) & 15u64;
        if k == 1 {
            assert(s == 60);
            assert((a >> 60u64) == (a >> 60u64) & 15u64) by (bit_vector);
            assert((b >> 60u64) == (b >> 60u64) & 15u64) by (bit_vector);
        } else {
            assert((a >> s) == (a >> (s + 4)) * 16 + ((a >> s) & 15u64)) by (bit_vector)
                requires
                    s < 60;
            assert((b >> s) == (b >> (s + 4)) * 16 + ((b >> s) & 15u64)) by (bit_vector)
                requires
                    s < 60;
            assert((64 - 4 * (k - 1)) as u64 == s + 4);
        }
        assert(top_nibbles(a, k) == top_nibbles(a, k - 1) * 16 + na);
        assert(top_nibbles(b, k) == top_nibbles(b, k - 1) * 16 + nb);
        let pa = hex16(a).take(k - 1);
        let pb = hex16(b).take(k - 1);
        assert(hex16(a).take(k) =~= pa.push(hex_digit(na)));
        assert(hex16(b).take(k) =~= pb.push(hex_digit(nb)));
        if top_nibbles(a, k) < top_nibbles(b, k) {
            if top_nibbles(a, k - 1) < top_nibbles(b, k - 1) {
                lemma_lt_push(pa, pb, hex_digit(na), hex_digit(nb));
            } else if top_nibbles(a, k - 1) == top_nibbles(b, k - 1) {
                assert(na < nb);
                assert(hex_digit(na) < hex_digit(nb));
                lemma_lt_push(pa, pb, hex_digit(na), hex_digit(nb));
            }
        }
        if top_nibbles(a, k) == top_nibbles(b, k) {
            assert(top_nibbles(a, k - 1) == top_nibbles(b, k - 1));
            assert(na == nb);
        }
    }
}

/// Link keys sort byte-wise in sequence order.
pub proof fn law_audit_keys_sorted(a: u64, b: u64)
    requires
        a < b,
    ensures
        bytes_lt(audit_prefix() + hex16(a), audit_prefix() + hex16(b)),
{
    lemma_hex16_order(a, b, 16);
    assert((a >> 0u64) == a) by (bit_vector);
    assert((b >> 0u64) == b) by (bit_vector);
    assert(hex16(a).take(16) =~= hex16(a));
    assert(hex16(b).take(16) =~= hex16(b));
    lemma_lt_common_prefix(audit_prefix(), hex16(a), hex16(b));
}

/// The first `k` digits of `hex16(x)` read as the top `4k` bits of `x`.
proof fn lemma_hex16_value(x: u64, k: int)
    requires
        0 <= k <= 16,
    ensures
        hex_run(hex16(x).take(k)) == Some(if k == 0 {
            0int
        } else {
            (x >> ((64 - 4 * k) as u64)) as int
        }),
    decreases k,
{
    if k > 0 {
        lemma_hex16_value(x, k - 1);
        assert(hex16(x).take(k).drop_last() =~= hex16(x).take(k - 1));
        let s = (64 - 4 * k) as u64;
        let n = nibble(x, k - 1);
        assert(n == (x >> s) & 15u64);
        assert(n < 16) by (bit_vector)
            requires
                n == (x >> s) & 15u64;
        assert(hex_value(hex_digit(n)) == Some(n));
        if k == 1 {
            assert(s == 60);
            assert((x >> 60u64) == (x >> 60u64) & 15u64) by (bit_vector);
        } else {
            let s2 = (64 - 4 * (k - 1)) as u64;
            assert(s2 == s + 4);
            assert((x >> s) == (x >> (s + 4)) * 16 + ((x >> s) & 15u64)) by (bit_vector)
                requires
                    s < 60;
        }
    }
}

} // verus!
