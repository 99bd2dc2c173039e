//! Ledger of negatives: what was looked for and found absent. Entries are
//! keyed by scope and normalized query, reinforced by repeated probes, and
//! stored in their own side table.
use vstd::prelude::*;
use vstd::bytes::*;
use vstd::slice::*;
use vstd::utf8::encode_utf8;
use vstd::string::StringSliceAdditionalSpecFns;
use crate::fingerprint::{fnv, fnv1a64, FP_SEED};
use crate::lexical::{ascii_lower, token_state, tokenize, tokens, unicode_alphanumeric};
use crate::text::{hex16_text, push_hex16};
use crate::wire::{
    bytes_at, lemma_bytes_at_concat, lemma_le_bytes_roundtrip, push_str16, push_u32, push_u64, rd_u32,
    rd_u64, read_str16, str16_wire,
};

verus! {

/// Magic of an encoded absence ("NDG1").
pub const NEGATIVE_MAGIC: [u8; 4] = [78, 68, 71, 49];

/// Layout version of an encoded absence.
pub const NEGATIVE_VERSION: u8 = 1;

/// Prefix of the side-table keys ("sys/negative/"); a full key adds sixteen
/// hex digits, so no key is a prefix of another.
pub const NEGATIVE_PREFIX: [u8; 13] = [115, 121, 115, 47, 110, 101, 103, 97, 116, 105, 118, 101, 47];

/// A recorded absence: the normalized `query`, asked in `scope`, was looked
/// for `probes` times and not found.
#[derive(Clone, Debug, PartialEq, Eq, Default)]
pub struct AbsenceEntry {
    /// Normalized query (the tokens joined by single spaces).
    pub query: String,
    /// Scope of the question (empty = global); never crosses scopes.
    pub scope: String,
    /// How many probes came back empty (saturating).
    pub probes: u32,
    /// Tick of the first record.
    pub first_tick: u64,
    /// Tick of the last probe.
    pub last_tick: u64,
}

/// Abstract absence.
pub struct AbsenceModel {
    pub query: Seq<char>,
    pub scope: Seq<char>,
    pub probes: u32,
    pub first_tick: u64,
    pub last_tick: u64,
}

impl View for AbsenceEntry {
    type V = AbsenceModel;

    open spec fn view(&self) -> AbsenceModel {
        AbsenceModel {
            query: self.query@,
            scope: self.scope@,
            probes: self.probes,
            first_tick: self.first_tick,
            last_tick: self.last_tick,
        }
    }
}

/// The magic as bytes.
pub open spec fn negative_magic() -> Seq<u8> {
    seq![78u8, 68u8, 71u8, 49u8]
}

/// Fixed head of an encoded absence.
pub open spec fn absence_head(m: AbsenceModel) -> Seq<u8> {
    negative_magic() + seq![1u8] + spec_u32_to_le_bytes(m.probes) + spec_u64_to_le_bytes(m.first_tick)
        + spec_u64_to_le_bytes(m.last_tick)
}

/// Bytes of an absence: magic, version, probes, first and last tick, then the
/// scope and the query as length-prefixed strings.
pub open spec fn absence_wire(m: AbsenceModel) -> Seq<u8> {
    absence_head(m) + str16_wire(m.scope) + str16_wire(m.query)
}

/// Both strings fit their 16-bit length fields.
pub open spec fn absence_ok(m: AbsenceModel) -> bool {
    encode_utf8(m.scope).len() <= u16::MAX && encode_utf8(m.query).len() <= u16::MAX
}

proof fn lemma_absence_head(data: Seq<u8>, m: AbsenceModel)
    requires
        bytes_at(data, 0, absence_wire(m)),
    ensures
        data.len() >= 25,
        data.subrange(0, 4) == negative_magic(),
        data[4] == 1,
        data.subrange(5, 9) == spec_u32_to_le_bytes(m.probes),
        data.subrange(9, 17) == spec_u64_to_le_bytes(m.first_tick),
        data.subrange(17, 25) == spec_u64_to_le_bytes(m.last_tick),
        bytes_at(data, 25, str16_wire(m.scope)),
        bytes_at(data, 25 + str16_wire(m.scope).len() as int, str16_wire(m.query)),
{
    lemma_le_bytes_roundtrip();
    let h = absence_head(m);
    assert(h.len() == 25);
    lemma_bytes_at_concat(data, 0, h + str16_wire(m.scope), str16_wire(m.query));
    lemma_bytes_at_concat(data, 0, h, str16_wire(m.scope));
    assert(data.subrange(0, 25) == h);
    assert(data.subrange(0, 4) =~= h.subrange(0, 4));
    assert(data.subrange(5, 9) =~= h.subrange(5, 9));
    assert(data.subrange(9, 17) =~= h.subrange(9, 17));
    assert(data.subrange(17, 25) =~= h.subrange(17, 25));
    assert(data[4] == h[4]);
}

/// Law: a truncated entry is rejected. No entry's bytes sit at the start of
/// a proper prefix of another entry's bytes, so `decode` (whose found entry
/// sits at the start of the data) reads none from such a prefix.
pub proof fn law_absence_truncated_rejected(data: Seq<u8>, m: AbsenceModel, e: AbsenceModel)
    requires
        absence_ok(m),
        absence_ok(e),
        data.len() < absence_wire(m).len(),
        data == absence_wire(m).take(data.len() as int),
    ensures
        !bytes_at(data, 0, absence_wire(e)),
{
    if bytes_at(data, 0, absence_wire(e)) {
        lemma_le_bytes_roundtrip();
        let w = absence_wire(m);
        let x = absence_wire(e);
        let ls = encode_utf8(m.scope).len();
        let lq = encode_utf8(m.query).len();
        let es = encode_utf8(e.scope).len();
        let eq = encode_utf8(e.query).len();
        assert(absence_head(m).len() == 25);
        assert(absence_head(e).len() == 25);
        assert(w.len() == 29 + ls + lq);
        assert(x.len() == 29 + es + eq);
        // the scope lengths are read from the same two bytes
        assert(x.subrange(25, 27) =~= spec_u16_to_le_bytes(es as u16));
        assert(w.subrange(25, 27) =~= spec_u16_to_le_bytes(ls as u16));
        assert(x.subrange(25, 27) =~= data.subrange(25, 27));
        assert(w.subrange(25, 27) =~= data.subrange(25, 27));
        assert(es == ls);
        // and then the query lengths
        let o: int = 27 + ls as int;
        assert(x.subrange(o, o + 2) =~= spec_u16_to_le_bytes(eq as u16));
        assert(w.subrange(o, o + 2) =~= spec_u16_to_le_bytes(lq as u16));
        assert(x.subrange(o, o + 2) =~= data.subrange(o, o + 2));
        assert(w.subrange(o, o + 2) =~= data.subrange(o, o + 2));
        assert(eq == lq);
    }
}

impl AbsenceEntry {
    /// Bytes of the entry (string lengths are cut to 16 bits).
    pub fn encode(&self) -> (r: Vec<u8>)
        ensures
            r@ == absence_wire(self@),
    {
        let mut out: Vec<u8> = Vec::new();
        out.push(78u8);
        out.push(68u8);
        out.push(71u8);
        out.push(49u8);
        out.push(NEGATIVE_VERSION);
        push_u32(&mut out, self.probes);
        push_u64(&mut out, self.first_tick);
        push_u64(&mut out, self.last_tick);
        proof {
            assert(out@ =~= absence_head(self@));
        }
        push_str16(&mut out, self.scope.as_str());
        push_str16(&mut out, self.query.as_str());
        proof {
            assert(out@ =~= absence_wire(self@));
        }
        out
    }

    /// Reads an entry at the start of `data`: the entry and the bytes it
    /// took, `None` for a wrong magic or version and for truncated or
    /// non-UTF-8 fields.
    pub fn decode(data: &[u8]) -> (r: Option<(Self, usize)>)
        ensures
            r matches Some((e, n)) ==> absence_ok(e@) && bytes_at(data@, 0, absence_wire(e@)) && n
                == absence_wire(e@).len(),
            forall|m: AbsenceModel|
                absence_ok(m) && #[trigger] bytes_at(data@, 0, absence_wire(m)) ==> (r matches Some((e, n))
                    && e@ == m && n == absence_wire(m).len()),
    {
        proof {
            lemma_le_bytes_roundtrip();
        }
        if data.len() < 25 || data[0] != 78 || data[1] != 68 || data[2] != 71 || data[3] != 49 || data[4]
            != NEGATIVE_VERSION {
            proof {
                assert forall|m: AbsenceModel| absence_ok(m) && #[trigger] bytes_at(data@, 0, absence_wire(m)) implies false by {
                    lemma_absence_head(data@, m);
                    assert(data@.subrange(0, 4)[0] == data@[0]);
                    assert(data@.subrange(0, 4)[1] == data@[1]);
                    assert(data@.subrange(0, 4)[2] == data@[2]);
                    assert(data@.subrange(0, 4)[3] == data@[3]);
                }
            }
            return None;
        }
        proof {
            assert(data@.subrange(0, 4) =~= negative_magic());
        }
        let probes = match rd_u32(data, 5) {
            Some(x) => x,
            None => return None,
        };
        let first_tick = match rd_u64(data, 9) {
            Some(x) => x,
            None => return None,
        };
        let last_tick = match rd_u64(data, 17) {
            Some(x) => x,
            None => return None,
        };
        proof {
            assert forall|m: AbsenceModel| absence_ok(m) && #[trigger] bytes_at(data@, 0, absence_wire(m)) implies m.probes
                == probes && m.first_tick == first_tick && m.last_tick == last_tick by {
                lemma_absence_head(data@, m);
            }
        }
        let (scope, o1) = match read_str16(data, 25) {
            Ok(x) => x,
            Err(_) => {
                proof {
                    assert forall|m: AbsenceModel| absence_ok(m) && #[trigger] bytes_at(data@, 0, absence_wire(m)) implies false by {
                        lemma_absence_head(data@, m);
                    }
                }
                return None;
            },
        };
        proof {
            assert forall|m: AbsenceModel| absence_ok(m) && #[trigger] bytes_at(data@, 0, absence_wire(m)) implies m.scope
                == scope@ by {
                lemma_absence_head(data@, m);
            }
        }
        let (query, o2) = match read_str16(data, o1) {
            Ok(x) => x,
            Err(_) => {
                proof {
                    assert forall|m: AbsenceModel| absence_ok(m) && #[trigger] bytes_at(data@, 0, absence_wire(m)) implies false by {
                        lemma_absence_head(data@, m);
                    }
                }
                return None;
            },
        };
        proof {
            assert forall|m: AbsenceModel| absence_ok(m) && #[trigger] bytes_at(data@, 0, absence_wire(m)) implies m.query
                == query@ && o2 == absence_wire(m).len() by {
                lemma_absence_head(data@, m);
                lemma_le_bytes_roundtrip();
                assert(absence_head(m).len() == 25);
            }
        }
        let e = AbsenceEntry { query, scope, probes, first_tick, last_tick };
        proof {
            let h = absence_head(e@);
            assert(h.len() == 25);
            assert(data@.subrange(0, 25) =~= h) by {
                assert(data@.subrange(0, 4) =~= h.subrange(0, 4));
                assert(data@.subrange(5, 9) =~= h.subrange(5, 9));
                assert(data@.subrange(9, 17) =~= h.subrange(9, 17));
                assert(data@.subrange(17, 25) =~= h.subrange(17, 25));
                assert forall|i: int| 0 <= i < 25 implies data@.subrange(0, 25)[i] == h[i] by {
                    if i < 4 {
                        assert(data@.subrange(0, 4)[i] == h.subrange(0, 4)[i]);
                    } else if i == 4 {
                    } else if i < 9 {
                        assert(data@.subrange(5, 9)[i - 5] == h.subrange(5, 9)[i - 5]);
                    } else if i < 17 {
                        assert(data@.subrange(9, 17)[i - 9] == h.subrange(9, 17)[i - 9]);
                    } else {
                        assert(data@.subrange(17, 25)[i - 17] == h.subrange(17, 25)[i - 17]);
                    }
                }
            }
            assert(bytes_at(data@, 0, h));
            lemma_bytes_at_concat(data@, 0, h, str16_wire(scope@));
            lemma_bytes_at_concat(data@, 0, h + str16_wire(scope@), str16_wire(query@));
            assert(absence_wire(e@) == h + str16_wire(scope@) + str16_wire(query@));
        }
        Some((e, o2))
    }
}

/// Joins texts with single spaces.
pub open spec fn join_spaced(ts: Seq<Seq<char>>) -> Seq<char>
    decreases ts.len(),
{
    if ts.len() == 0 {
        Seq::empty()
    } else if ts.len() == 1 {
        ts[0]
    } else {
        join_spaced(ts.drop_last()) + seq![' '] + ts.last()
    }
}

/// Every character of `t` is alphanumeric and already lower-cased.
pub open spec fn token_chars(t: Seq<char>) -> bool {
    forall|i: int| 0 <= i < t.len() ==> unicode_alphanumeric(#[trigger] t[i]) && ascii_lower(t[i]) == t[i]
}

/// Reading a run of token characters extends the token being read.
proof fn lemma_state_extend(p: Seq<char>, w: Seq<char>)
    requires
        token_chars(w),
    ensures
        token_state(p + w) == (token_state(p).0, token_state(p).1 + w),
    decreases w.len(),
{
    if w.len() == 0 {
        assert(p + w =~= p);
        assert(token_state(p).1 + w =~= token_state(p).1);
    } else {
        let w0 = w.drop_last();
        assert(token_chars(w0)) by {
            assert forall|i: int| 0 <= i < w0.len() implies unicode_alphanumeric(#[trigger] w0[i]) && ascii_lower(w0[i]) == w0[i] by {
                assert(w0[i] == w[i]);
            }
        }
        lemma_state_extend(p, w0);
        assert((p + w).drop_last() =~= p + w0);
        assert((p + w).last() == w.last());
        assert(unicode_alphanumeric(w[w.len() - 1]));
        assert(token_state(p).1 + w0 + seq![w.last()] =~= token_state(p).1 + w);
        assert((token_state(p).1 + w0).push(ascii_lower(w.last())) =~= token_state(p).1 + w);
    }
}

/// The tokens of any text, and the token being read, are non-empty runs
/// of token characters.
proof fn lemma_state_tokens(s: Seq<char>)
    requires
        forall|c: char| 'a' <= c && c <= 'z' ==> #[trigger] unicode_alphanumeric(c),
    ensures
        forall|j: int| 0 <= j < token_state(s).0.len() ==> #[trigger] token_state(s).0[j].len() > 0
            && token_chars(token_state(s).0[j]),
        token_chars(token_state(s).1),
    decreases s.len(),
{
    if s.len() > 0 {
        lemma_state_tokens(s.drop_last());
        let (done, cur) = token_state(s.drop_last());
        let c = s.last();
        if unicode_alphanumeric(c) {
            let n = cur.push(ascii_lower(c));
            if 'A' <= c && c <= 'Z' {
                assert('a' <= ascii_lower(c) && ascii_lower(c) <= 'z');
            }
            assert(unicode_alphanumeric(ascii_lower(c)));
            assert(ascii_lower(ascii_lower(c)) == ascii_lower(c));
            assert forall|i: int| 0 <= i < n.len() implies unicode_alphanumeric(#[trigger] n[i]) && ascii_lower(n[i]) == n[i] by {
                if i < cur.len() {
                    assert(n[i] == cur[i]);
                }
            }
        }
    }
}

/// Joining non-empty runs of token characters with single spaces reads
/// back as those runs, the last one still being read.
proof fn lemma_join_state(ts: Seq<Seq<char>>)
    requires
        ts.len() > 0,
        !unicode_alphanumeric(' '),
        forall|j: int| 0 <= j < ts.len() ==> #[trigger] ts[j].len() > 0 && token_chars(ts[j]),
    ensures
        token_state(join_spaced(ts)) == (ts.drop_last(), ts.last()),
    decreases ts.len(),
{
    if ts.len() == 1 {
        lemma_state_extend(Seq::empty(), ts[0]);
        assert(Seq::<char>::empty() + ts[0] =~= ts[0]);
        assert(Seq::<char>::empty() + ts[0] =~= ts[0]);
        assert(ts.drop_last() =~= Seq::<Seq<char>>::empty());
    } else {
        let t0 = ts.drop_last();
        assert forall|j: int| 0 <= j < t0.len() implies #[trigger] t0[j].len() > 0 && token_chars(t0[j]) by {
            assert(t0[j] == ts[j]);
        }
        lemma_join_state(t0);
        let jp = join_spaced(t0);
        let js = jp + seq![' '];
        assert(js.drop_last() =~= jp);
        assert(js.last() == ' ');
        assert(t0.last().len() > 0);
        assert(token_state(js) == (t0.drop_last().push(t0.last()), Seq::<char>::empty()));
        assert(t0.drop_last().push(t0.last()) =~= t0);
        assert(ts[ts.len() - 1].len() > 0 && token_chars(ts[ts.len() - 1]));
        lemma_state_extend(js, ts.last());
        assert(Seq::<char>::empty() + ts.last() =~= ts.last());
    }
}

/// Law: normalizing a normalized query changes nothing. Stated for the
/// standard library's alphanumeric test as documented (and as the wrapper
/// `is_alphanumeric` states of its result): a space is not alphanumeric,
/// lower-case ASCII letters are.
pub proof fn law_normalize_idempotent(s: Seq<char>)
    requires
        !unicode_alphanumeric(' '),
        forall|c: char| 'a' <= c && c <= 'z' ==> #[trigger] unicode_alphanumeric(c),
    ensures
        join_spaced(tokens(join_spaced(tokens(s)))) == join_spaced(tokens(s)),
{
    lemma_state_tokens(s);
    let ts = tokens(s);
    let (done, cur) = token_state(s);
    assert forall|j: int| 0 <= j < ts.len() implies #[trigger] ts[j].len() > 0 && token_chars(ts[j]) by {
        if j < done.len() {
            assert(ts[j] == done[j]);
        }
    }
    if ts.len() > 0 {
        lemma_join_state(ts);
        assert(ts.drop_last().push(ts.last()) =~= ts);
        assert(tokens(join_spaced(ts)) == ts);
    } else {
        assert(join_spaced(ts) =~= Seq::<char>::empty());
        assert(token_state(Seq::<char>::empty()) == (Seq::<Seq<char>>::empty(), Seq::<char>::empty()));
        assert(tokens(join_spaced(ts)) =~= ts);
    }
}

/// Normal form of a query, the identity of its absence: its lexical tokens
/// joined by single spaces, so case and punctuation do not split a record.
pub fn normalize_query(s: &str) -> (r: String)
    ensures
        r@ == join_spaced(tokens(s@)),
{
    let toks = tokenize(s);
    let ghost ts = toks@.map_values(|t: String| t@);
    let mut out = String::new();
    let mut i: usize = 0;
    while i < toks.len()
        invariant
            0 <= i <= toks@.len(),
            ts == toks@.map_values(|t: String| t@),
            out@ == join_spaced(ts.take(i as int)),
        decreases toks@.len() - i,
    {
        proof {
            assert(ts.take(i + 1).drop_last() =~= ts.take(i as int));
            assert(ts.take(i + 1).last() == toks@[i as int]@);
        }
        if i > 0 {
            proof {
                reveal_strlit(" ");
            }
            out.append(" ");
        } else {
            proof {
                assert(ts.take(1)[0] == toks@[0]@);
                assert(out@ =~= Seq::<char>::empty());
            }
        }
        out.append(toks[i].as_str());
        i += 1;
    }
    proof {
        assert(ts.take(i as int) =~= ts);
    }
    out
}

/// The prefix as text.
pub open spec fn negative_prefix_text() -> Seq<char> {
    seq!['s', 'y', 's', '/', 'n', 'e', 'g', 'a', 't', 'i', 'v', 'e', '/']
}

/// The bytes a side-table key hashes: scope, a unit separator (so that
/// ("ab","c") and ("a","bc") differ), normalized query.
pub open spec fn negative_key_input(scope: Seq<char>, norm_query: Seq<char>) -> Seq<u8> {
    encode_utf8(scope) + seq![0x1fu8] + encode_utf8(norm_query)
}

/// Side-table key of an absence: the prefix, then sixteen hex digits of the
/// FNV-1a 64 of the key input.
pub fn negative_key(scope: &str, norm_query: &str) -> (r: String)
    ensures
        r@ == negative_prefix_text() + hex16_text(fnv(FP_SEED, negative_key_input(scope@, norm_query@))),
{
    let mut buf: Vec<u8> = Vec::new();
    buf.extend_from_slice(scope.as_bytes());
    buf.push(0x1f);
    buf.extend_from_slice(norm_query.as_bytes());
    proof {
        assert(buf@ =~= negative_key_input(scope@, norm_query@));
    }
    let h = fnv1a64(buf.as_slice());
    let mut out = String::new();
    proof {
        reveal_strlit("sys/negative/");
    }
    out.append("sys/negative/");
    push_hex16(&mut out, h);
    out
}

/// The prefix as bytes.
pub open spec fn negative_prefix_bytes() -> Seq<u8> {
    seq![115u8, 121u8, 115u8, 47u8, 110u8, 101u8, 103u8, 97u8, 116u8, 105u8, 118u8, 101u8, 47u8]
}

/// The digest part of a side-table key: what follows the prefix, `None` when
/// the key does not start with it.
pub fn negative_digest(key: &[u8]) -> (r: Option<&[u8]>)
    ensures
        r is Some <==> key@.len() >= 13 && key@.subrange(0, 13) == negative_prefix_bytes(),
        r matches Some(d) ==> d@ == key@.subrange(13, key@.len() as int),
{
    if key.len() < 13 {
        return None;
    }
    let mut i: usize = 0;
    while i < 13
        invariant
            0 <= i <= 13,
            key@.len() >= 13,
            forall|j: int| 0 <= j < i ==> key@[j] == #[trigger] negative_prefix_bytes()[j],
        decreases 13 - i,
    {
        if key[i] != NEGATIVE_PREFIX[i] {
            proof {
                assert(key@.subrange(0, 13)[i as int] == key@[i as int]);
                assert(NEGATIVE_PREFIX@[i as int] == negative_prefix_bytes()[i as int]);
            }
            return None;
        }
        proof {
            assert(NEGATIVE_PREFIX@[i as int] == negative_prefix_bytes()[i as int]);
        }
        i += 1;
    }
    proof {
        assert(key@.subrange(0, 13) =~= negative_prefix_bytes());
    }
    Some(slice_subrange(key, 13, key.len()))
}

} // verus!
