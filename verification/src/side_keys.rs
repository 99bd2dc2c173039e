//! Keys of the storage side tables (logical state, validity window, TTL,
//! event, metadata, version index, conflicts) and of the relation index,
//! with the parser that reads a relation key back.
use vstd::prelude::*;
use vstd::prelude::StringExecFns;
use vstd::slice::slice_to_vec;
use vstd::utf8::encode_utf8;
use crate::lexical::push_char;
use crate::memory_doc::{relation_name, MemoryLayer, RelationKind};
use crate::text::chars_of;
use crate::meta::{law_meta_roundtrip, meta_holds, meta_ok, meta_wire, MemoryMeta, MetaModel};
use crate::wire::{bytes_at, push_bytes, push_str16, read_str16, str16_wire};

verus! {

/// Side-table key text: `sys/<table>/<key>`.
pub open spec fn side_key(table: Seq<char>, key: Seq<char>) -> Seq<char> {
    seq!['s', 'y', 's', '/'] + table + seq!['/'] + key
}

/// Bytes of `sys/<table>/<key>`.
fn side_key_bytes(table: &str, key: &str) -> (r: Vec<u8>)
    ensures
        r@ == encode_utf8(side_key(table@, key@)),
{
    let mut s = String::new();
    s.append("sys/");
    s.append(table);
    s.append("/");
    s.append(key);
    proof {
        reveal_strlit("sys/");
        reveal_strlit("/");
        assert(s@ =~= side_key(table@, key@));
    }
    slice_to_vec(s.as_str().as_bytes())
}

/// Logical-state key `sys/state/<storage key>`.
pub fn state_key(sk: &str) -> (r: Vec<u8>)
    ensures
        r@ == encode_utf8(side_key(seq!['s', 't', 'a', 't', 'e'], sk@)),
{
    let r = side_key_bytes("state", sk);
    proof {
        reveal_strlit("state");
        assert(side_key("state"@, sk@) =~= side_key(seq!['s', 't', 'a', 't', 'e'], sk@));
    }
    r
}

/// Validity-window key `sys/validity/<storage key>`.
pub fn validity_key(sk: &str) -> (r: Vec<u8>)
    ensures
        r@ == encode_utf8(side_key(seq!['v', 'a', 'l', 'i', 'd', 'i', 't', 'y'], sk@)),
{
    let r = side_key_bytes("validity", sk);
    proof {
        reveal_strlit("validity");
        assert(side_key("validity"@, sk@) =~= side_key(seq!['v', 'a', 'l', 'i', 'd', 'i', 't', 'y'], sk@));
    }
    r
}

/// Time-to-live key `sys/ttl/<storage key>`.
pub fn ttl_key(sk: &str) -> (r: Vec<u8>)
    ensures
        r@ == encode_utf8(side_key(seq!['t', 't', 'l'], sk@)),
{
    let r = side_key_bytes("ttl", sk);
    proof {
        reveal_strlit("ttl");
        assert(side_key("ttl"@, sk@) =~= side_key(seq!['t', 't', 'l'], sk@));
    }
    r
}

/// Temporal-event key `sys/event/<storage key>`.
pub fn event_key(sk: &str) -> (r: Vec<u8>)
    ensures
        r@ == encode_utf8(side_key(seq!['e', 'v', 'e', 'n', 't'], sk@)),
{
    let r = side_key_bytes("event", sk);
    proof {
        reveal_strlit("event");
        assert(side_key("event"@, sk@) =~= side_key(seq!['e', 'v', 'e', 'n', 't'], sk@));
    }
    r
}

/// Metadata key `sys/meta/<storage key>`.
pub fn meta_key(sk: &str) -> (r: Vec<u8>)
    ensures
        r@ == encode_utf8(side_key(seq!['m', 'e', 't', 'a'], sk@)),
{
    let r = side_key_bytes("meta", sk);
    proof {
        reveal_strlit("meta");
        assert(side_key("meta"@, sk@) =~= side_key(seq!['m', 'e', 't', 'a'], sk@));
    }
    r
}

/// Version-index key `sys/version/<version id>`.
pub fn version_key(vid: &str) -> (r: Vec<u8>)
    ensures
        r@ == encode_utf8(side_key(seq!['v', 'e', 'r', 's', 'i', 'o', 'n'], vid@)),
{
    let r = side_key_bytes("version", vid);
    proof {
        reveal_strlit("version");
        assert(side_key("version"@, vid@) =~= side_key(seq!['v', 'e', 'r', 's', 'i', 'o', 'n'], vid@));
    }
    r
}

/// Conflict key `sys/conflict/<conflict id>`.
pub fn conflict_key(id: &str) -> (r: Vec<u8>)
    ensures
        r@ == encode_utf8(side_key(seq!['c', 'o', 'n', 'f', 'l', 'i', 'c', 't'], id@)),
{
    let r = side_key_bytes("conflict", id);
    proof {
        reveal_strlit("conflict");
        assert(side_key("conflict"@, id@) =~= side_key(seq!['c', 'o', 'n', 'f', 'l', 'i', 'c', 't'], id@));
    }
    r
}

/// Layers kept in memory only (sensory and working).
pub fn is_ram_layer(layer: MemoryLayer) -> (r: bool)
    ensures
        r == (layer == MemoryLayer::L0Sensory || layer == MemoryLayer::L1Working),
{
    match layer {
        MemoryLayer::L0Sensory | MemoryLayer::L1Working => true,
        _ => false,
    }
}

/// Relation text `<kind>/<a>#<b>`.
pub open spec fn relation_text(kind: RelationKind, a: Seq<char>, b: Seq<char>) -> Seq<char> {
    relation_name(kind) + seq!['/'] + a + seq!['#'] + b
}

/// Stored relation key text: `sys/rel/<kind>/<a>#<b>`.
pub open spec fn rel_key_text(kind: RelationKind, a: Seq<char>, b: Seq<char>) -> Seq<char> {
    seq!['s', 'y', 's', '/', 'r', 'e', 'l', '/'] + relation_text(kind, a, b)
}

/// Key of a stored relation from `a` to `b`.
pub fn rel_storage_key(kind: RelationKind, a: &str, b: &str) -> (r: Vec<u8>)
    ensures
        r@ == encode_utf8(rel_key_text(kind, a@, b@)),
{
    let mut s = String::new();
    s.append("sys/rel/");
    s.append(kind.as_str());
    s.append("/");
    s.append(a);
    s.append("#");
    s.append(b);
    proof {
        reveal_strlit("sys/rel/");
        reveal_strlit("/");
        reveal_strlit("#");
        assert(s@ =~= rel_key_text(kind, a@, b@));
    }
    slice_to_vec(s.as_str().as_bytes())
}

/// Index key of a relation: `rel/<kind>/<x>#<y>` forward, `rev/<kind>/<x>#<y>`
/// reverse.
pub fn rel_art_key(rev: bool, kind: RelationKind, x: &str, y: &str) -> (r: String)
    ensures
        r@ == (if rev {
            seq!['r', 'e', 'v', '/']
        } else {
            seq!['r', 'e', 'l', '/']
        }) + relation_text(kind, x@, y@),
{
    let mut s = String::new();
    if rev {
        s.append("rev/");
    } else {
        s.append("rel/");
    }
    s.append(kind.as_str());
    s.append("/");
    s.append(x);
    s.append("#");
    s.append(y);
    proof {
        reveal_strlit("rev/");
        reveal_strlit("rel/");
        reveal_strlit("/");
        reveal_strlit("#");
    }
    s
}

/// No relation name holds a `/`.
proof fn lemma_relation_name_no_slash(k: RelationKind)
    ensures
        !relation_name(k).contains('/'),
{
    let n = relation_name(k);
                let nl: int = n.len() as int;
    assert forall|i: int| 0 <= i < n.len() implies n[i] != '/' by {
    }
}

/// Where the parts of a stored relation key sit.
proof fn lemma_rel_layout(k: RelationKind, a: Seq<char>, b: Seq<char>)
    requires
        !a.contains('#'),
    ensures
        ({
            let t = rel_key_text(k, a, b);
            let n = relation_name(k);
            let p: int = 8 + n.len() as int;
            let q: int = p + 1 + a.len() as int;
            &&& t.len() == q + 1 + b.len()
            &&& t[0] == 's' && t[1] == 'y' && t[2] == 's' && t[3] == '/'
            &&& t[4] == 'r' && t[5] == 'e' && t[6] == 'l' && t[7] == '/'
            &&& forall|i: int| 8 <= i < p ==> t[i] != '/'
            &&& t[p] == '/'
            &&& t.subrange(8, p) == n
            &&& forall|i: int| p + 1 <= i < q ==> t[i] != '#'
            &&& t[q] == '#'
            &&& t.subrange(p + 1, q) == a
            &&& t.subrange(q + 1, t.len() as int) == b
        }),
{
    let t = rel_key_text(k, a, b);
    let n = relation_name(k);
    let p: int = 8 + n.len() as int;
    let q: int = p + 1 + a.len() as int;
    lemma_relation_name_no_slash(k);
    assert forall|i: int| 8 <= i < p implies t[i] != '/' by {
        assert(t[i] == n[i - 8]);
        if n[i - 8] == '/' {
            assert(n.contains('/'));
        }
    }
    assert forall|i: int| p + 1 <= i < q implies t[i] != '#' by {
        assert(t[i] == a[i - p - 1]);
        if a[i - p - 1] == '#' {
            assert(a.contains('#'));
        }
    }
    assert(t.subrange(8, p) =~= n);
    assert(t.subrange(p + 1, q) =~= a);
    assert(t.subrange(q + 1, t.len() as int) =~= b);
}

/// A string built from chars `c[lo..hi]`.
pub(crate) fn string_of(c: &Vec<char>, lo: usize, hi: usize) -> (r: String)
    requires
        lo <= hi <= c@.len(),
    ensures
        r@ == c@.subrange(lo as int, hi as int),
{
    let mut s = String::new();
    let mut i = lo;
    while i < hi
        invariant
            lo <= i <= hi <= c@.len(),
            s@ == c@.subrange(lo as int, i as int),
        decreases hi - i,
    {
        push_char(&mut s, c[i]);
        assert(s@ =~= c@.subrange(lo as int, i + 1));
        i += 1;
    }
    s
}

/// First index at or after `from` holding `ch` (the length when none).
pub(crate) fn find_char(c: &Vec<char>, from: usize, ch: char) -> (r: usize)
    requires
        from <= c@.len(),
    ensures
        from <= r <= c@.len(),
        forall|i: int| from <= i < r ==> c@[i] != ch,
        r < c@.len() ==> c@[r as int] == ch,
{
    let mut i = from;
    while i < c.len()
        invariant
            from <= i <= c@.len(),
            forall|j: int| from <= j < i ==> c@[j] != ch,
        decreases c@.len() - i,
    {
        if c[i] == ch {
            return i;
        }
        i += 1;
    }
    i
}

/// Reads a stored relation key back: the kind and both ends, split at the
/// first `/` after the prefix and the first `#` after it (keys are written
/// only for sources without `#`); `None` for any other text.
#[verifier::rlimit(40)]
pub fn parse_rel_storage_key(s: &str) -> (r: Option<(RelationKind, String, String)>)
    ensures
        r matches Some((k, a, b)) ==> s@ == rel_key_text(k, a@, b@) && !a@.contains('#'),
        forall|k: RelationKind, a: Seq<char>, b: Seq<char>|
            !a.contains('#') && s@ == #[trigger] rel_key_text(k, a, b) ==> (r matches Some((k2, a2, b2)) && k2 == k
                && a2@ == a && b2@ == b),
{
    let c = chars_of(s);
    if c.len() < 8 || c[0] != 's' || c[1] != 'y' || c[2] != 's' || c[3] != '/' || c[4] != 'r' || c[5] != 'e'
        || c[6] != 'l' || c[7] != '/' {
        proof {
            assert forall|k: RelationKind, a: Seq<char>, b: Seq<char>|
                !a.contains('#') && s@ == #[trigger] rel_key_text(k, a, b) implies false by {
                lemma_rel_layout(k, a, b);
            }
        }
        return None;
    }
    let p = find_char(&c, 8, '/');
    if p >= c.len() {
        proof {
            assert forall|k: RelationKind, a: Seq<char>, b: Seq<char>|
                !a.contains('#') && s@ == #[trigger] rel_key_text(k, a, b) implies false by {
                lemma_rel_layout(k, a, b);
                let nl: int = relation_name(k).len() as int;
                assert(c@[8 + nl] == '/');
            }
        }
        return None;
    }
    proof {
        assert forall|k: RelationKind, a: Seq<char>, b: Seq<char>|
            !a.contains('#') && s@ == #[trigger] rel_key_text(k, a, b) implies p == 8 + relation_name(k).len() by {
            lemma_rel_layout(k, a, b);
            let nl: int = relation_name(k).len() as int;
            if p < 8 + nl {
                assert(c@[p as int] != '/');
            } else if p > 8 + nl {
                assert(c@[8 + nl] == '/');
            }
        }
    }
    let kind_text = string_of(&c, 8, p);
    let kind = match RelationKind::from_str(kind_text.as_str()) {
        Some(k) => k,
        None => {
            proof {
                assert forall|k: RelationKind, a: Seq<char>, b: Seq<char>|
                    !a.contains('#') && s@ == #[trigger] rel_key_text(k, a, b) implies false by {
                    lemma_rel_layout(k, a, b);
                    assert(kind_text@ == relation_name(k));
                }
            }
            return None;
        },
    };
    proof {
        assert forall|k: RelationKind, a: Seq<char>, b: Seq<char>|
            !a.contains('#') && s@ == #[trigger] rel_key_text(k, a, b) implies k == kind by {
            lemma_rel_layout(k, a, b);
            assert(kind_text@ == relation_name(k));
            if k != kind {
                assert(relation_name(k) == relation_name(kind));
            }
        }
    }
    let q = find_char(&c, p + 1, '#');
    if q >= c.len() {
        proof {
            assert forall|k: RelationKind, a: Seq<char>, b: Seq<char>|
                !a.contains('#') && s@ == #[trigger] rel_key_text(k, a, b) implies false by {
                lemma_rel_layout(k, a, b);
                let qq: int = p + 1 + a.len() as int;
                assert(c@[qq] == '#');
            }
        }
        return None;
    }
    let a = string_of(&c, p + 1, q);
    let b = string_of(&c, q + 1, c.len());
    proof {
        assert(!a@.contains('#')) by {
            if a@.contains('#') {
                let i = choose|i: int| 0 <= i < a@.len() && a@[i] == '#';
                assert(c@[p + 1 + i] == '#');
            }
        }
        assert(c@ =~= c@.subrange(0, 8) + c@.subrange(8, p as int) + seq!['/'] + a@ + seq!['#'] + b@);
        assert(c@.subrange(0, 8) =~= seq!['s', 'y', 's', '/', 'r', 'e', 'l', '/']);
        assert(s@ =~= rel_key_text(kind, a@, b@));
        assert forall|k: RelationKind, a2: Seq<char>, b2: Seq<char>|
            !a2.contains('#') && s@ == #[trigger] rel_key_text(k, a2, b2) implies a@ == a2 && b@ == b2 by {
            lemma_rel_layout(k, a2, b2);
            let qq: int = p + 1 + a2.len() as int;
            if q < qq {
                assert(c@[q as int] != '#');
            } else if q > qq {
                assert(c@[qq] == '#');
            }
        }
    }
    Some((kind, a, b))
}


/// Entry of the version index: the storage key as a 16-bit length-prefixed
/// string, then the MDM1 metadata of that version.
pub fn encode_version_entry(sk: &str, m: &MemoryMeta) -> (r: Vec<u8>)
    ensures
        r@ == str16_wire(sk@) + meta_wire(m@),
{
    let mut out: Vec<u8> = Vec::new();
    push_str16(&mut out, sk);
    let mb = m.encode();
    push_bytes(&mut out, mb.as_slice());
    assert(out@ =~= str16_wire(sk@) + meta_wire(m@));
    out
}

/// The entry `d` holds: storage key `sk` then the metadata `m`.
pub open spec fn version_entry_holds(d: Seq<u8>, sk: Seq<char>, m: MetaModel) -> bool {
    &&& encode_utf8(sk).len() <= u16::MAX
    &&& bytes_at(d, 0, str16_wire(sk))
    &&& meta_holds(d.subrange(str16_wire(sk).len() as int, d.len() as int), m)
}

/// Reads a version-index entry back; `None` when the key or the metadata
/// is cut off or malformed.
pub fn decode_version_entry(data: &[u8]) -> (r: Option<(String, MemoryMeta)>)
    ensures
        r matches Some((sk, m)) ==> version_entry_holds(data@, sk@, m@),
        forall|sk: Seq<char>, m: MetaModel| #[trigger] version_entry_holds(data@, sk, m) ==> (r matches Some((a, b))
            && a@ == sk && b@ == m),
{
    let (sk, o) = match read_str16(data, 0) {
        Ok(x) => x,
        Err(_) => {
            return None;
        },
    };
    let n = data.len();
    let rest = vstd::slice::slice_subrange(data, o, n);
    match MemoryMeta::decode(rest) {
        Ok(m) => {
            proof {
                assert forall|s2: Seq<char>, m2: MetaModel| #[trigger] version_entry_holds(data@, s2, m2) implies sk@ == s2
                    && m@ == m2 by {
                }
            }
            Some((sk, m))
        },
        Err(_) => {
            proof {
                assert forall|s2: Seq<char>, m2: MetaModel| #[trigger] version_entry_holds(data@, s2, m2) implies false by {
                    assert(sk@ == s2);
                    assert(meta_holds(rest@, m2));
                }
            }
            None
        },
    }
}

/// The bytes `encode_version_entry` writes hold the key and the metadata,
/// so `decode_version_entry` gives both back.
pub proof fn law_version_entry_roundtrip(sk: Seq<char>, m: MetaModel)
    requires
        encode_utf8(sk).len() <= u16::MAX,
        meta_ok(m),
    ensures
        version_entry_holds(str16_wire(sk) + meta_wire(m), sk, m),
{
    let w = str16_wire(sk) + meta_wire(m);
    law_meta_roundtrip(m);
    assert(w.subrange(0, str16_wire(sk).len() as int) =~= str16_wire(sk));
    assert(w.subrange(str16_wire(sk).len() as int, w.len() as int) =~= meta_wire(m));
}

} // verus!
