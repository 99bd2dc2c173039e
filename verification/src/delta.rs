//! Replication units: the memory delta (MDLT) and the memory snapshot
//! (MSNP), each a list of known versions followed by whole records.
use vstd::prelude::*;
use vstd::bytes::*;
use vstd::slice::*;
use crate::conflict::{blob_views, blobs32_wire, read_blobs32};
use crate::crdt::MemoryVersion;
use crate::doc::{record_as, record_wire, rec_error, MemoryRecord};
use crate::meta::{lemma_over_assemble, lemma_over_read, lemma_over_wire, over_entry_at, over_wire};
use crate::wire::{
    bytes_at, lemma_bytes_at_concat, lemma_le_bytes_roundtrip, push_bytes, push_u16, push_u32, push_u64, rd_u16,
};

verus! {

/// (node, version) pairs of a list of versions.
pub open spec fn version_pairs(vs: Seq<MemoryVersion>) -> Seq<(u8, u64)> {
    vs.map_values(|v: MemoryVersion| (v.node_id, v.version))
}

/// Wire form shared by deltas and snapshots: magic, format version 1, the
/// version count (`u16`) and each (node, version), the record count (`u16`)
/// and each record as a `u32` length and its MDR1 bytes.
pub open spec fn sync_wire(magic: Seq<u8>, vs: Seq<MemoryVersion>, bodies: Seq<Seq<u8>>) -> Seq<u8> {
    magic + seq![1u8] + spec_u16_to_le_bytes(vs.len() as u16) + over_wire(version_pairs(vs))
        + spec_u16_to_le_bytes(bodies.len() as u16) + blobs32_wire(bodies)
}

/// Every record body fits its `u32` length and decodes.
pub open spec fn bodies_ok(bodies: Seq<Seq<u8>>) -> bool {
    forall|i: int| #![trigger bodies[i]] 0 <= i < bodies.len() ==> bodies[i].len() <= u32::MAX && rec_error(bodies[i]) is None
}

/// `d` starts with the versions `vs` and the record bodies `bodies`.
pub open spec fn sync_holds(d: Seq<u8>, magic: Seq<u8>, vs: Seq<MemoryVersion>, bodies: Seq<Seq<u8>>) -> bool {
    &&& vs.len() <= u16::MAX
    &&& bodies.len() <= u16::MAX
    &&& bodies_ok(bodies)
    &&& bytes_at(d, 0, sync_wire(magic, vs, bodies))
}

/// Each record is the one its body holds.
pub open spec fn records_as(bodies: Seq<Seq<u8>>, recs: Seq<MemoryRecord>) -> bool {
    &&& recs.len() == bodies.len()
    &&& forall|i: int| 0 <= i < bodies.len() ==> #[trigger] record_as(bodies[i], recs[i])
}

/// MDR1 bytes of each record.
pub open spec fn record_bodies(recs: Seq<MemoryRecord>) -> Seq<Seq<u8>> {
    recs.map_values(|r: MemoryRecord| record_wire(r))
}

/// The magic "MDLT".
pub open spec fn delta_magic() -> Seq<u8> {
    seq![77u8, 68u8, 76u8, 84u8]
}

/// The magic "MSNP".
pub open spec fn snap_magic() -> Seq<u8> {
    seq![77u8, 83u8, 78u8, 80u8]
}

/// Where the parts sit when the wire starts the data.
proof fn lemma_sync_fields(d: Seq<u8>, magic: Seq<u8>, vs: Seq<MemoryVersion>, bodies: Seq<Seq<u8>>)
    requires
        magic.len() == 4,
        bytes_at(d, 0, sync_wire(magic, vs, bodies)),
    ensures
        ({
            let o3: int = 7 + over_wire(version_pairs(vs)).len() as int;
            &&& d.len() >= 7
            &&& d.subrange(0, 4) == magic
            &&& d[4] == 1
            &&& d.subrange(5, 7) == spec_u16_to_le_bytes(vs.len() as u16)
            &&& bytes_at(d, 7, over_wire(version_pairs(vs)))
            &&& o3 + 2 <= d.len()
            &&& d.subrange(o3, o3 + 2) == spec_u16_to_le_bytes(bodies.len() as u16)
            &&& bytes_at(d, o3 + 2, blobs32_wire(bodies))
        }),
{
    let h = magic + seq![1u8];
    let a = spec_u16_to_le_bytes(vs.len() as u16);
    let b = over_wire(version_pairs(vs));
    let c = spec_u16_to_le_bytes(bodies.len() as u16);
    let e = blobs32_wire(bodies);
    lemma_le_bytes_roundtrip();
    assert(sync_wire(magic, vs, bodies) == h + a + b + c + e);
    lemma_bytes_at_concat(d, 0, h + a + b + c, e);
    lemma_bytes_at_concat(d, 0, h + a + b, c);
    lemma_bytes_at_concat(d, 0, h + a, b);
    lemma_bytes_at_concat(d, 0, h, a);
    assert(d.subrange(0, 4) =~= h.subrange(0, 4));
    assert(d[4] == d.subrange(0, 5)[4]);
}

/// Writes versions then records after the magic and format byte.
fn write_sync(out: &mut Vec<u8>, vs: &Vec<MemoryVersion>, recs: &Vec<MemoryRecord>) -> (r: Result<(), &'static str>)
    ensures
        vs@.len() > u16::MAX ==> r == Err::<(), &'static str>("versions too many"),
        vs@.len() <= u16::MAX && recs@.len() > u16::MAX ==> r == Err::<(), &'static str>("records too many"),
        vs@.len() <= u16::MAX && recs@.len() <= u16::MAX ==> ((r is Ok) <==> (forall|i: int|
            0 <= i < recs@.len() ==> #[trigger] record_wire(recs@[i]).len() <= u32::MAX)),
        r matches Err(e) ==> (e == "versions too many" || e == "records too many" || e == "record too long"),
        r is Ok ==> final(out)@ == old(out)@ + spec_u16_to_le_bytes(vs@.len() as u16) + over_wire(version_pairs(vs@))
            + spec_u16_to_le_bytes(recs@.len() as u16) + blobs32_wire(record_bodies(recs@)),
{
    if vs.len() > 65535 {
        return Err("versions too many");
    }
    if recs.len() > 65535 {
        return Err("records too many");
    }
    let ghost head = old(out)@;
    push_u16(out, vs.len() as u16);
    let ghost h2 = out@;
    let mut i: usize = 0;
    while i < vs.len()
        invariant
            0 <= i <= vs@.len(),
            out@ == h2 + over_wire(version_pairs(vs@).take(i as int)),
        decreases vs@.len() - i,
    {
        out.push(vs[i].node_id);
        push_u64(out, vs[i].version);
        proof {
            assert(version_pairs(vs@).take(i + 1).drop_last() =~= version_pairs(vs@).take(i as int));
        }
        i += 1;
        assert(out@ =~= h2 + over_wire(version_pairs(vs@).take(i as int)));
    }
    assert(version_pairs(vs@).take(i as int) =~= version_pairs(vs@));
    push_u16(out, recs.len() as u16);
    let ghost h3 = out@;
    let mut j: usize = 0;
    while j < recs.len()
        invariant
            vs@.len() <= u16::MAX,
            recs@.len() <= u16::MAX,
            0 <= j <= recs@.len(),
            out@ == h3 + blobs32_wire(record_bodies(recs@).take(j as int)),
            forall|k: int| 0 <= k < j ==> #[trigger] record_wire(recs@[k]).len() <= u32::MAX,
        decreases recs@.len() - j,
    {
        let enc = recs[j].encode();
        if enc.len() > 4294967295 {
            proof {
                assert(enc@ == record_wire(recs@[j as int]));
                assert(!(record_wire(recs@[j as int]).len() <= u32::MAX));
            }
            return Err("record too long");
        }
        push_u32(out, enc.len() as u32);
        push_bytes(out, enc.as_slice());
        proof {
            assert(record_bodies(recs@).take(j + 1).drop_last() =~= record_bodies(recs@).take(j as int));
        }
        j += 1;
        assert(out@ =~= h3 + blobs32_wire(record_bodies(recs@).take(j as int)));
    }
    assert(record_bodies(recs@).take(j as int) =~= record_bodies(recs@));
    Ok(())
}

/// Reads the versions and the records after the format byte: `None` when
/// any part is cut off or a record does not decode.
#[verifier::rlimit(60)]
fn read_sync(data: &[u8], Ghost(magic): Ghost<Seq<u8>>) -> (r: (Option<Vec<MemoryVersion>>, Option<Vec<MemoryRecord>>))
    requires
        magic.len() == 4,
        data@.len() >= 5,
        data@.subrange(0, 4) == magic,
        data@[4] == 1,
    ensures
        r.0 is None ==> r.1 is None,
        r.1 is Some ==> r.0 is Some,
        r.1 is Some ==> exists|bodies: Seq<Seq<u8>>|
            sync_holds(data@, magic, r.0.unwrap()@, bodies) && #[trigger] records_as(bodies, r.1.unwrap()@),
        forall|vs: Seq<MemoryVersion>, bodies: Seq<Seq<u8>>|
            #[trigger] sync_holds(data@, magic, vs, bodies) ==> ((r.0 matches Some(v) && v@ == vs) && (r.1 matches Some(
                recs,
            ) && records_as(bodies, recs@))),
{
    proof {
        lemma_le_bytes_roundtrip();
    }
    let ghost d = data@;
    let n = match rd_u16(data, 5) {
        Some(x) => x as usize,
        None => {
            proof {
                assert forall|vs: Seq<MemoryVersion>, bodies: Seq<Seq<u8>>|
                    #[trigger] sync_holds(d, magic, vs, bodies) implies false by {
                    lemma_sync_fields(d, magic, vs, bodies);
                }
            }
            return (None, None);
        },
    };
    proof {
        assert forall|vs: Seq<MemoryVersion>, bodies: Seq<Seq<u8>>|
            #[trigger] sync_holds(d, magic, vs, bodies) implies vs.len() == n by {
            lemma_sync_fields(d, magic, vs, bodies);
        }
    }
    let dlen = data.len();
    let mut vs: Vec<MemoryVersion> = Vec::new();
    let mut o: usize = 7;
    let mut i: usize = 0;
    while i < n
        invariant
            dlen == data@.len(),
            d == data@,
            magic.len() == 4,
            d.len() >= 7,
            0 <= i <= n,
            o == 7 + 9 * i,
            o <= dlen,
            vs@.len() == i,
            forall|k: int| 0 <= k < i ==> #[trigger] version_pairs(vs@)[k] == over_entry_at(d, 7 + 9 * k),
            forall|a: Seq<MemoryVersion>, bodies: Seq<Seq<u8>>| #[trigger] sync_holds(d, magic, a, bodies) ==> a.len() == n,
        decreases n - i,
    {
        if o >= dlen || dlen - o < 9 {
            proof {
                assert forall|a: Seq<MemoryVersion>, bodies: Seq<Seq<u8>>|
                    #[trigger] sync_holds(d, magic, a, bodies) implies false by {
                    lemma_sync_fields(d, magic, a, bodies);
                    lemma_over_read(d, 7, version_pairs(a));
                }
            }
            return (None, None);
        }
        let node = data[o];
        let version = crate::wire::rd_u64(data, o + 1).unwrap();
        let ghost before = vs@;
        vs.push(MemoryVersion { node_id: node, version });
        proof {
            assert forall|k: int| 0 <= k < i + 1 implies #[trigger] version_pairs(vs@)[k] == over_entry_at(d, 7 + 9 * k) by {
                if k < i {
                    assert(vs@[k] == before[k]);
                    assert(version_pairs(before)[k] == over_entry_at(d, 7 + 9 * k));
                }
            }
        }
        o = o + 9;
        i += 1;
    }
    proof {
        lemma_over_assemble(d, 7, version_pairs(vs@));
        lemma_over_wire(version_pairs(vs@));
        assert forall|a: Seq<MemoryVersion>, bodies: Seq<Seq<u8>>|
            #[trigger] sync_holds(d, magic, a, bodies) implies a == vs@ by {
            lemma_sync_fields(d, magic, a, bodies);
            lemma_over_read(d, 7, version_pairs(a));
            assert forall|k: int| 0 <= k < n implies a[k] == vs@[k] by {
                assert(version_pairs(a)[k] == over_entry_at(d, 7 + 9 * k));
                assert(version_pairs(vs@)[k] == over_entry_at(d, 7 + 9 * k));
            }
            assert(a =~= vs@);
        }
    }
    let m = match rd_u16(data, o) {
        Some(x) => x as usize,
        None => {
            proof {
                assert forall|a: Seq<MemoryVersion>, bodies: Seq<Seq<u8>>|
                    #[trigger] sync_holds(d, magic, a, bodies) implies false by {
                    lemma_sync_fields(d, magic, a, bodies);
                    lemma_over_wire(version_pairs(a));
                }
            }
            return (Some(vs), None);
        },
    };
    let ob = o + 2;
    proof {
        assert forall|a: Seq<MemoryVersion>, bodies: Seq<Seq<u8>>|
            #[trigger] sync_holds(d, magic, a, bodies) implies bodies.len() == m by {
            lemma_sync_fields(d, magic, a, bodies);
            lemma_over_wire(version_pairs(a));
        }
    }
    let (blobs, _) = match read_blobs32(data, ob, m) {
        Ok(x) => x,
        Err(_) => {
            proof {
                assert forall|a: Seq<MemoryVersion>, bodies: Seq<Seq<u8>>|
                    #[trigger] sync_holds(d, magic, a, bodies) implies false by {
                    lemma_sync_fields(d, magic, a, bodies);
                    lemma_over_wire(version_pairs(a));
                }
            }
            return (Some(vs), None);
        },
    };
    proof {
        assert forall|a: Seq<MemoryVersion>, bodies: Seq<Seq<u8>>|
            #[trigger] sync_holds(d, magic, a, bodies) implies bodies == blob_views(blobs@) by {
            lemma_sync_fields(d, magic, a, bodies);
            lemma_over_wire(version_pairs(a));
        }
    }
    let ghost bv = blob_views(blobs@);
    let mut recs: Vec<MemoryRecord> = Vec::new();
    let mut j: usize = 0;
    while j < blobs.len()
        invariant
            d == data@,
            0 <= j <= blobs@.len(),
            bv == blob_views(blobs@),
            forall|k: int| 0 <= k < bv.len() ==> #[trigger] bv[k].len() <= u32::MAX,
            forall|a: Seq<MemoryVersion>, bodies: Seq<Seq<u8>>| #[trigger] sync_holds(d, magic, a, bodies) ==> bodies == bv,
            recs@.len() == j,
            forall|k: int| 0 <= k < j ==> #[trigger] record_as(bv[k], recs@[k]),
            forall|k: int| #![trigger bv[k]] 0 <= k < j ==> rec_error(bv[k]) is None,
        decreases blobs@.len() - j,
    {
        let body = blobs[j].as_slice();
        assert(body@ == bv[j as int]);
        let res = MemoryRecord::decode(body);
        match res {
            Ok(x) => {
                proof {
                    if rec_error(bv[j as int]) is Some {
                        assert(res is Err);
                    }
                    assert(rec_error(bv[j as int]) is None);
                    assert(record_as(bv[j as int], x));
                }
                let ghost before = recs@;
                recs.push(x);
                proof {
                    assert(recs@[j as int] == x);
                    assert forall|k: int| 0 <= k < j + 1 implies #[trigger] record_as(bv[k], recs@[k]) by {
                        if k < j {
                            assert(recs@[k] == before[k]);
                            assert(record_as(bv[k], before[k]));
                        }
                    }
                }
            },
            Err(_) => {
                proof {
                    assert(rec_error(bv[j as int]) is Some);
                    assert forall|a: Seq<MemoryVersion>, bodies: Seq<Seq<u8>>|
                        #[trigger] sync_holds(d, magic, a, bodies) implies false by {
                        assert(bodies == bv);
                        assert(bodies_ok(bodies));
                        assert(rec_error(bodies[j as int]) is None);
                    }
                }
                return (Some(vs), None);
            },
        }
        j += 1;
    }
    proof {
        assert(records_as(bv, recs@));
        assert forall|i: int| #![trigger bv[i]] 0 <= i < bv.len() implies bv[i].len() <= u32::MAX && rec_error(bv[i]) is None by {
        }
        lemma_sync_assemble(d, magic, vs@, bv, o as int);
        assert(sync_holds(data@, magic, vs@, bv));
        assert(records_as(bv, recs@));
    }
    let ghost vv = vs@;
    let ghost rv = recs@;
    let rr = (Some(vs), Some(recs));
    proof {
        assert(rr.0.unwrap()@ == vv);
        assert(rr.1.unwrap()@ == rv);
        assert(sync_holds(data@, magic, rr.0.unwrap()@, bv) && records_as(bv, rr.1.unwrap()@));
    }
    rr
}

/// Versions and records read part by part sit there as a whole.
proof fn lemma_sync_assemble(d: Seq<u8>, magic: Seq<u8>, vs: Seq<MemoryVersion>, bodies: Seq<Seq<u8>>, o: int)
    requires
        magic.len() == 4,
        d.len() >= 7,
        d.subrange(0, 4) == magic,
        d[4] == 1,
        vs.len() == spec_u16_from_le_bytes(d.subrange(5, 7)),
        bytes_at(d, 7, over_wire(version_pairs(vs))),
        o == 7 + over_wire(version_pairs(vs)).len(),
        o + 2 <= d.len(),
        bodies.len() == spec_u16_from_le_bytes(d.subrange(o, o + 2)),
        bytes_at(d, o + 2, blobs32_wire(bodies)),
        forall|i: int| #![trigger bodies[i]] 0 <= i < bodies.len() ==> bodies[i].len() <= u32::MAX && rec_error(bodies[i]) is None,
    ensures
        sync_holds(d, magic, vs, bodies),
{
    lemma_le_bytes_roundtrip();
    let h = magic + seq![1u8];
    let a = spec_u16_to_le_bytes(vs.len() as u16);
    let b = over_wire(version_pairs(vs));
    let c = spec_u16_to_le_bytes(bodies.len() as u16);
    let e = blobs32_wire(bodies);
    assert(d.subrange(0, 5) =~= h) by {
        assert forall|k: int| 0 <= k < 5 implies d.subrange(0, 5)[k] == h[k] by {
            if k < 4 {
                assert(d.subrange(0, 5)[k] == d.subrange(0, 4)[k]);
            }
        }
    }
    assert(d.subrange(5, 7) == a);
    assert(d.subrange(o, o + 2) == c);
    lemma_bytes_at_concat(d, 0, h, a);
    lemma_bytes_at_concat(d, 0, h + a, b);
    lemma_bytes_at_concat(d, 0, h + a + b, c);
    lemma_bytes_at_concat(d, 0, h + a + b + c, e);
    assert(sync_wire(magic, vs, bodies) =~= h + a + b + c + e);
}


/// A memory delta: the base versions the sender assumes the receiver
/// knows, and whole records for what it is missing.
#[derive(Clone, Debug, PartialEq)]
pub struct MemoryDelta {
    pub base: Vec<MemoryVersion>,
    pub records: Vec<MemoryRecord>,
}

impl MemoryDelta {
    /// Encodes, refusing (never truncating) a count or a record length that
    /// does not fit its field.
    pub fn try_encode(&self) -> (r: Result<Vec<u8>, &'static str>)
        ensures
            self.base@.len() > u16::MAX ==> r == Err::<Vec<u8>, &'static str>("versions too many"),
            self.base@.len() <= u16::MAX && self.records@.len() > u16::MAX ==> r == Err::<Vec<u8>, &'static str>(
                "records too many",
            ),
            self.base@.len() <= u16::MAX && self.records@.len() <= u16::MAX ==> ((r is Ok) <==> (forall|i: int|
                0 <= i < self.records@.len() ==> #[trigger] record_wire(self.records@[i]).len() <= u32::MAX)),
            r matches Err(e) ==> (e == "versions too many" || e == "records too many" || e == "record too long"),
            r matches Ok(b) ==> b@ == sync_wire(delta_magic(), self.base@, record_bodies(self.records@)),
    {
        let mut out: Vec<u8> = Vec::new();
        out.push(77);
        out.push(68);
        out.push(76);
        out.push(84);
        out.push(1);
        match write_sync(&mut out, &self.base, &self.records) {
            Ok(()) => {
                assert(out@ =~= sync_wire(delta_magic(), self.base@, record_bodies(self.records@)));
                Ok(out)
            },
            Err(e) => Err(e),
        }
    }

    /// Encodes a delta whose counts and record lengths fit their fields.
    pub fn encode(&self) -> (r: Vec<u8>)
        requires
            self.base@.len() <= u16::MAX,
            self.records@.len() <= u16::MAX,
            forall|i: int| 0 <= i < self.records@.len() ==> #[trigger] record_wire(self.records@[i]).len() <= u32::MAX,
        ensures
            r@ == sync_wire(delta_magic(), self.base@, record_bodies(self.records@)),
    {
        match self.try_encode() {
            Ok(b) => b,
            Err(_) => Vec::new(),
        }
    }

    /// Decodes, bounds-checked: the versions and the records whose bytes
    /// start `data` (trailing bytes are ignored), or why there are none.
    pub fn decode(data: &[u8]) -> (r: Result<Self, &'static str>)
        ensures
            data@.len() < 5 || data@.subrange(0, 4) != delta_magic() ==> r == Err::<Self, &'static str>("bad delta magic"),
            data@.len() >= 5 && data@.subrange(0, 4) == delta_magic() && data@[4] != 1 ==> r == Err::<Self, &'static str>(
                "bad delta version",
            ),
            r matches Err(e) ==> (e == "bad delta magic" || e == "bad delta version" || e == "trunc delta base" || e == "trunc delta records"),
            r matches Ok(x) ==> exists|bodies: Seq<Seq<u8>>|
                sync_holds(data@, delta_magic(), x.base@, bodies) && #[trigger] records_as(bodies, x.records@),
            forall|vs: Seq<MemoryVersion>, bodies: Seq<Seq<u8>>|
                #[trigger] sync_holds(data@, delta_magic(), vs, bodies) ==> (r matches Ok(x) && x.base@ == vs && records_as(
                    bodies,
                    x.records@,
                )),
    {
        if data.len() < 5 || data[0] != 77 || data[1] != 68 || data[2] != 76 || data[3] != 84 {
            proof {
                if data@.len() >= 5 {
                    assert(data@.subrange(0, 4)[0] == data@[0]);
                    assert(data@.subrange(0, 4)[1] == data@[1]);
                    assert(data@.subrange(0, 4)[2] == data@[2]);
                    assert(data@.subrange(0, 4)[3] == data@[3]);
                }
                assert forall|vs: Seq<MemoryVersion>, bodies: Seq<Seq<u8>>|
                    #[trigger] sync_holds(data@, delta_magic(), vs, bodies) implies false by {
                    lemma_sync_fields(data@, delta_magic(), vs, bodies);
                    assert(data@.subrange(0, 4)[0] == data@[0]);
                    assert(data@.subrange(0, 4)[1] == data@[1]);
                    assert(data@.subrange(0, 4)[2] == data@[2]);
                    assert(data@.subrange(0, 4)[3] == data@[3]);
                }
            }
            return Err("bad delta magic");
        }
        proof {
            assert(data@.subrange(0, 4) =~= delta_magic());
        }
        if data[4] != 1 {
            proof {
                assert forall|vs: Seq<MemoryVersion>, bodies: Seq<Seq<u8>>|
                    #[trigger] sync_holds(data@, delta_magic(), vs, bodies) implies false by {
                    lemma_sync_fields(data@, delta_magic(), vs, bodies);
                }
            }
            return Err("bad delta version");
        }
        let res = read_sync(data, Ghost(delta_magic()));
        let (vs, recs) = res;
        match vs {
            None => Err("trunc delta base"),
            Some(v) => match recs {
                None => Err("trunc delta records"),
                Some(rs) => {
                    let ghost vv = v@;
                    let ghost rv = rs@;
                    let x = MemoryDelta { base: v, records: rs };
                    let out: Result<Self, &'static str> = Ok(x);
                    proof {
                        let bodies = choose|bodies: Seq<Seq<u8>>|
                            sync_holds(data@, delta_magic(), vv, bodies) && #[trigger] records_as(bodies, rv);
                        assert(out.unwrap().base@ == vv);
                        assert(out.unwrap().records@ == rv);
                        assert(sync_holds(data@, delta_magic(), out.unwrap().base@, bodies) && records_as(bodies, out.unwrap().records@));
                    }
                    out
                },
            },
        }
    }
}

/// A full memory snapshot: the known version of each node and every
/// record (to bootstrap or restore a node).
#[derive(Clone, Debug, PartialEq)]
pub struct MemorySnapshot {
    pub versions: Vec<MemoryVersion>,
    pub records: Vec<MemoryRecord>,
}

impl MemorySnapshot {
    /// Encodes, refusing (never truncating) a count or a record length that
    /// does not fit its field.
    pub fn try_encode(&self) -> (r: Result<Vec<u8>, &'static str>)
        ensures
            self.versions@.len() > u16::MAX ==> r == Err::<Vec<u8>, &'static str>("versions too many"),
            self.versions@.len() <= u16::MAX && self.records@.len() > u16::MAX ==> r == Err::<Vec<u8>, &'static str>(
                "records too many",
            ),
            self.versions@.len() <= u16::MAX && self.records@.len() <= u16::MAX ==> ((r is Ok) <==> (forall|i: int|
                0 <= i < self.records@.len() ==> #[trigger] record_wire(self.records@[i]).len() <= u32::MAX)),
            r matches Err(e) ==> (e == "versions too many" || e == "records too many" || e == "record too long"),
            r matches Ok(b) ==> b@ == sync_wire(snap_magic(), self.versions@, record_bodies(self.records@)),
    {
        let mut out: Vec<u8> = Vec::new();
        out.push(77);
        out.push(83);
        out.push(78);
        out.push(80);
        out.push(1);
        match write_sync(&mut out, &self.versions, &self.records) {
            Ok(()) => {
                assert(out@ =~= sync_wire(snap_magic(), self.versions@, record_bodies(self.records@)));
                Ok(out)
            },
            Err(e) => Err(e),
        }
    }

    /// Encodes a snapshot whose counts and record lengths fit their fields.
    pub fn encode(&self) -> (r: Vec<u8>)
        requires
            self.versions@.len() <= u16::MAX,
            self.records@.len() <= u16::MAX,
            forall|i: int| 0 <= i < self.records@.len() ==> #[trigger] record_wire(self.records@[i]).len() <= u32::MAX,
        ensures
            r@ == sync_wire(snap_magic(), self.versions@, record_bodies(self.records@)),
    {
        match self.try_encode() {
            Ok(b) => b,
            Err(_) => Vec::new(),
        }
    }

    /// Decodes, bounds-checked: the versions and the records whose bytes
    /// start `data` (trailing bytes are ignored), or why there are none.
    pub fn decode(data: &[u8]) -> (r: Result<Self, &'static str>)
        ensures
            data@.len() < 5 || data@.subrange(0, 4) != snap_magic() ==> r == Err::<Self, &'static str>("bad snapshot magic"),
            data@.len() >= 5 && data@.subrange(0, 4) == snap_magic() && data@[4] != 1 ==> r == Err::<Self, &'static str>(
                "bad snapshot version",
            ),
            r matches Err(e) ==> (e == "bad snapshot magic" || e == "bad snapshot version" || e == "trunc snap versions" || e == "trunc snap records"),
            r matches Ok(x) ==> exists|bodies: Seq<Seq<u8>>|
                sync_holds(data@, snap_magic(), x.versions@, bodies) && #[trigger] records_as(bodies, x.records@),
            forall|vs: Seq<MemoryVersion>, bodies: Seq<Seq<u8>>|
                #[trigger] sync_holds(data@, snap_magic(), vs, bodies) ==> (r matches Ok(x) && x.versions@ == vs && records_as(
                    bodies,
                    x.records@,
                )),
    {
        if data.len() < 5 || data[0] != 77 || data[1] != 83 || data[2] != 78 || data[3] != 80 {
            proof {
                if data@.len() >= 5 {
                    assert(data@.subrange(0, 4)[0] == data@[0]);
                    assert(data@.subrange(0, 4)[1] == data@[1]);
                    assert(data@.subrange(0, 4)[2] == data@[2]);
                    assert(data@.subrange(0, 4)[3] == data@[3]);
                }
                assert forall|vs: Seq<MemoryVersion>, bodies: Seq<Seq<u8>>|
                    #[trigger] sync_holds(data@, snap_magic(), vs, bodies) implies false by {
                    lemma_sync_fields(data@, snap_magic(), vs, bodies);
                    assert(data@.subrange(0, 4)[0] == data@[0]);
                    assert(data@.subrange(0, 4)[1] == data@[1]);
                    assert(data@.subrange(0, 4)[2] == data@[2]);
                    assert(data@.subrange(0, 4)[3] == data@[3]);
                }
            }
            return Err("bad snapshot magic");
        }
        proof {
            assert(data@.subrange(0, 4) =~= snap_magic());
        }
        if data[4] != 1 {
            proof {
                assert forall|vs: Seq<MemoryVersion>, bodies: Seq<Seq<u8>>|
                    #[trigger] sync_holds(data@, snap_magic(), vs, bodies) implies false by {
                    lemma_sync_fields(data@, snap_magic(), vs, bodies);
                }
            }
            return Err("bad snapshot version");
        }
        let res = read_sync(data, Ghost(snap_magic()));
        let (vs, recs) = res;
        match vs {
            None => Err("trunc snap versions"),
            Some(v) => match recs {
                None => Err("trunc snap records"),
                Some(rs) => {
                    let ghost vv = v@;
                    let ghost rv = rs@;
                    let x = MemorySnapshot { versions: v, records: rs };
                    let out: Result<Self, &'static str> = Ok(x);
                    proof {
                        let bodies = choose|bodies: Seq<Seq<u8>>|
                            sync_holds(data@, snap_magic(), vv, bodies) && #[trigger] records_as(bodies, rv);
                        assert(out.unwrap().versions@ == vv);
                        assert(out.unwrap().records@ == rv);
                        assert(sync_holds(data@, snap_magic(), out.unwrap().versions@, bodies) && records_as(bodies, out.unwrap().records@));
                    }
                    out
                },
            },
        }
    }
}

/// Law: the bytes `encode` writes start with the versions and the record
/// bytes, so `decode` gives back the versions and each record (each record
/// as `MemoryRecord::decode` gives it back).
pub proof fn law_sync_roundtrip(magic: Seq<u8>, vs: Seq<MemoryVersion>, recs: Seq<MemoryRecord>)
    requires
        magic.len() == 4,
        vs.len() <= u16::MAX,
        recs.len() <= u16::MAX,
        forall|i: int| 0 <= i < recs.len() ==> #[trigger] record_wire(recs[i]).len() <= u32::MAX,
        forall|i: int| 0 <= i < recs.len() ==> crate::doc::doc_model_ok(#[trigger] recs[i].doc.model()),
        forall|i: int| 0 <= i < recs.len() ==> (#[trigger] recs[i].doc.meta matches Some(m) ==> crate::meta::meta_ok(m@)
            && crate::meta::meta_wire(m@).len() <= u32::MAX),
    ensures
        sync_holds(sync_wire(magic, vs, record_bodies(recs)), magic, vs, record_bodies(recs)),
        forall|got: Seq<MemoryRecord>| #[trigger] records_as(record_bodies(recs), got) ==> got.len() == recs.len()
            && forall|i: int| 0 <= i < recs.len() ==> (#[trigger] got[i]).state == recs[i].state && got[i].validity
                == recs[i].validity && crate::doc::opt_meta(got[i].doc.meta) == crate::doc::opt_meta(
                recs[i].doc.meta,
            ) && got[i].doc.model() == recs[i].doc.model(),
{
    let bodies = record_bodies(recs);
    let d = sync_wire(magic, vs, bodies);
    assert forall|i: int| #![trigger bodies[i]] 0 <= i < bodies.len() implies bodies[i].len() <= u32::MAX && rec_error(
        bodies[i],
    ) is None by {
        let r = recs[i];
        assert(crate::doc::doc_model_ok(r.doc.model()));
        crate::doc::law_record_roundtrip(r.state, r.validity, crate::doc::opt_meta(r.doc.meta), r.doc.model());
    }
    assert(d.subrange(0, d.len() as int) =~= d);
    assert forall|got: Seq<MemoryRecord>| #[trigger] records_as(bodies, got) implies got.len() == recs.len()
        && forall|i: int| 0 <= i < recs.len() ==> (#[trigger] got[i]).state == recs[i].state && got[i].validity
            == recs[i].validity && crate::doc::opt_meta(got[i].doc.meta) == crate::doc::opt_meta(recs[i].doc.meta)
            && got[i].doc.model() == recs[i].doc.model() by {
        assert forall|i: int| 0 <= i < recs.len() implies (#[trigger] got[i]).state == recs[i].state && got[i].validity
            == recs[i].validity && crate::doc::opt_meta(got[i].doc.meta) == crate::doc::opt_meta(recs[i].doc.meta)
            && got[i].doc.model() == recs[i].doc.model() by {
            let r = recs[i];
            assert(crate::doc::doc_model_ok(r.doc.model()));
            crate::doc::law_record_roundtrip(r.state, r.validity, crate::doc::opt_meta(r.doc.meta), r.doc.model());
            assert(record_as(bodies[i], got[i]));
        }
    }
}

} // verus!
