//! IDX1: snapshot of the derived indexes for fast mounting. Storage stays
//! the source of truth; the snapshot carries the key set, the era geometry,
//! the entity index, the lexical postings and the live binary vectors, with a
//! bounds-checked decoder.
use vstd::prelude::*;
use vstd::bytes::*;
use vstd::utf8::encode_utf8;
use vstd::string::StringSliceAdditionalSpecFns;
use crate::limits::{MAX_EMBEDDING_DIM, MAX_KLEN};
use crate::wire::{
    bytes_at, lemma_bytes_at_concat, lemma_bytes_at_prefix, lemma_le_bytes_roundtrip, push_str16, push_u16,
    push_u32, push_u64, rd_u16, rd_u32, rd_u64, read_str16, str16_wire, StrFieldError,
};

verus! {

/// Magic of a snapshot ("IDX1").
pub const IDX_MAGIC: [u8; 4] = [73, 68, 88, 49];

/// Layout version of a snapshot.
pub const IDX_VERSION: u8 = 1;

/// Most art keys a snapshot may list.
pub const MAX_SNAPSHOT_KEYS: usize = 4_194_304;

/// Most words a binary vector entry may hold (the widest embedding).
pub const MAX_SNAPSHOT_WORDS: usize = 64;

/// Snapshot of the derived index.
#[derive(Clone, Debug, PartialEq)]
pub struct IndexSnapshot {
    /// Storage keys indexed in the ART (without ids).
    pub art_keys: Vec<String>,
    /// Entity to storage keys.
    pub entity_index: Vec<(String, Vec<String>)>,
    /// Dimensions indexed in the binary index (the era).
    pub indexed_dims: Vec<usize>,
    /// (dimension, live vector count).
    pub corpus_counts: Vec<(usize, u64)>,
    /// Width of the binary index in 64-bit words per vector.
    pub bq_words_per_vec: u32,
    /// Live vectors in the binary index.
    pub bq_live: u64,
    /// Index fingerprint when the snapshot was taken.
    pub fingerprint: u64,
    /// Caller's tick when the snapshot was written.
    pub written_at: u64,
    /// Lexical postings: term to (document, term frequency).
    pub lexical_postings: Vec<(String, Vec<(String, u32)>)>,
    /// Lexical document lengths.
    pub lexical_doc_len: Vec<(String, u32)>,
    /// Lexical document count.
    pub lexical_n_docs: u32,
    /// Live binary vectors: (storage key, words).
    pub bq_entries: Vec<(String, Vec<u64>)>,
}

/// A derived entry: a key and its live vector words.
#[derive(Clone, Debug, PartialEq)]
pub struct IdxKeyVecs {
    pub sk: String,
    /// Words of the bit vector (empty for documents without one).
    pub words: Vec<u64>,
}

/// Abstract snapshot.
pub struct IdxModel {
    pub art_keys: Seq<Seq<char>>,
    pub entity_index: Seq<(Seq<char>, Seq<Seq<char>>)>,
    pub indexed_dims: Seq<usize>,
    pub corpus_counts: Seq<(usize, u64)>,
    pub bq_words_per_vec: u32,
    pub bq_live: u64,
    pub fingerprint: u64,
    pub written_at: u64,
    pub lexical_postings: Seq<(Seq<char>, Seq<(Seq<char>, u32)>)>,
    pub lexical_doc_len: Seq<(Seq<char>, u32)>,
    pub lexical_n_docs: u32,
    pub bq_entries: Seq<(Seq<char>, Seq<u64>)>,
}

/// A snapshot as laid out on the wire: each posting also says whether its
/// frequency was written escaped (a 255 byte, then the full `u32`).
pub struct IdxRaw {
    pub art_keys: Seq<Seq<char>>,
    pub entity_index: Seq<(Seq<char>, Seq<Seq<char>>)>,
    pub indexed_dims: Seq<usize>,
    pub corpus_counts: Seq<(usize, u64)>,
    pub bq_words_per_vec: u32,
    pub bq_live: u64,
    pub fingerprint: u64,
    pub written_at: u64,
    pub lexical_postings: Seq<(Seq<char>, Seq<(Seq<char>, u32, bool)>)>,
    pub lexical_doc_len: Seq<(Seq<char>, u32)>,
    pub lexical_n_docs: u32,
    pub bq_entries: Seq<(Seq<char>, Seq<u64>)>,
}

// ---- item views ------------------------------------------------------------

pub open spec fn same_usize(x: usize) -> usize {
    x
}

pub open spec fn same_count(x: (usize, u64)) -> (usize, u64) {
    x
}

pub open spec fn same_word(x: u64) -> u64 {
    x
}

pub open spec fn text_of(s: String) -> Seq<char> {
    s@
}

pub open spec fn ent_view(e: (String, Vec<String>)) -> (Seq<char>, Seq<Seq<char>>) {
    (e.0@, keys_views(e.1@))
}

pub open spec fn pdoc_view(d: (String, u32, bool)) -> (Seq<char>, u32, bool) {
    (d.0@, d.1, d.2)
}

/// A posting as the encoder writes it: escaped from 255 up (the byte 255
/// marks the escape).
pub open spec fn pdoc_canon(d: (String, u32)) -> (Seq<char>, u32, bool) {
    (d.0@, d.1, d.1 >= 255)
}

pub open spec fn term_view(t: (String, Vec<(String, u32, bool)>)) -> (Seq<char>, Seq<(Seq<char>, u32, bool)>) {
    (t.0@, pdocs_views(t.1@))
}

pub open spec fn term_canon(t: (String, Vec<(String, u32)>)) -> (Seq<char>, Seq<(Seq<char>, u32, bool)>) {
    (t.0@, pdocs_canon(t.1@))
}

pub open spec fn doclen_view(d: (String, u32)) -> (Seq<char>, u32) {
    (d.0@, d.1)
}

pub open spec fn bq_view(e: (String, Vec<u64>)) -> (Seq<char>, Seq<u64>) {
    (e.0@, e.1@)
}

// ---- item wires ------------------------------------------------------------

pub open spec fn dim_item(d: usize) -> Seq<u8> {
    spec_u32_to_le_bytes(d as u32)
}

pub open spec fn dim_ok(d: usize) -> bool {
    d <= u32::MAX
}

pub open spec fn count_item(c: (usize, u64)) -> Seq<u8> {
    spec_u32_to_le_bytes(c.0 as u32) + spec_u64_to_le_bytes(c.1)
}

pub open spec fn count_ok(c: (usize, u64)) -> bool {
    c.0 <= u32::MAX
}

pub open spec fn key_item(s: Seq<char>) -> Seq<u8> {
    str16_wire(s)
}

pub open spec fn key_ok(s: Seq<char>) -> bool {
    encode_utf8(s).len() <= MAX_KLEN
}

pub open spec fn word_item(w: u64) -> Seq<u8> {
    spec_u64_to_le_bytes(w)
}

pub open spec fn word_ok(w: u64) -> bool {
    true
}

pub open spec fn tf_wire(tf: u32, esc: bool) -> Seq<u8> {
    if esc {
        seq![255u8] + spec_u32_to_le_bytes(tf)
    } else {
        seq![tf as u8]
    }
}

pub open spec fn pdoc_item(d: (Seq<char>, u32, bool)) -> Seq<u8> {
    str16_wire(d.0) + tf_wire(d.1, d.2)
}

pub open spec fn pdoc_ok(d: (Seq<char>, u32, bool)) -> bool {
    encode_utf8(d.0).len() <= u16::MAX && (!d.2 ==> d.1 < 255)
}

pub open spec fn doclen_item(d: (Seq<char>, u32)) -> Seq<u8> {
    str16_wire(d.0) + spec_u32_to_le_bytes(d.1)
}

pub open spec fn doclen_ok(d: (Seq<char>, u32)) -> bool {
    encode_utf8(d.0).len() <= u16::MAX
}

/// Bytes of a list of dims items, one after the other.
pub open spec fn dims_cat(ss: Seq<usize>) -> Seq<u8>
    decreases ss.len(),
{
    if ss.len() == 0 {
        Seq::empty()
    } else {
        dims_cat(ss.drop_last()) + dim_item(ss.last())
    }
}

/// Every dims item is valid.
pub open spec fn dims_all_ok(ss: Seq<usize>) -> bool {
    forall|i: int| 0 <= i < ss.len() ==> dim_ok(#[trigger] ss[i])
}

proof fn lemma_dims_step(ss: Seq<usize>, j: int)
    requires
        0 <= j < ss.len(),
    ensures
        dims_cat(ss.take(j + 1)) == dims_cat(ss.take(j)) + dim_item(ss[j]),
{
    assert(ss.take(j + 1).drop_last() =~= ss.take(j));
}

proof fn lemma_dims_prefix(ss: Seq<usize>, j: int)
    requires
        0 <= j <= ss.len(),
    ensures
        dims_cat(ss.take(j)).len() <= dims_cat(ss).len(),
        dims_cat(ss).subrange(0, dims_cat(ss.take(j)).len() as int) == dims_cat(ss.take(j)),
    decreases ss.len(),
{
    if j == ss.len() {
        assert(ss.take(j) =~= ss);
    } else {
        lemma_dims_prefix(ss.drop_last(), j);
        assert(ss.drop_last().take(j) =~= ss.take(j));
        let a = dims_cat(ss.drop_last());
        let b = dim_item(ss.last());
        assert((a + b).subrange(0, dims_cat(ss.take(j)).len() as int) =~= a.subrange(
            0,
            dims_cat(ss.take(j)).len() as int,
        ));
    }
}

/// Bytes of a list of counts items, one after the other.
pub open spec fn counts_cat(ss: Seq<(usize, u64)>) -> Seq<u8>
    decreases ss.len(),
{
    if ss.len() == 0 {
        Seq::empty()
    } else {
        counts_cat(ss.drop_last()) + count_item(ss.last())
    }
}

/// Every counts item is valid.
pub open spec fn counts_all_ok(ss: Seq<(usize, u64)>) -> bool {
    forall|i: int| 0 <= i < ss.len() ==> count_ok(#[trigger] ss[i])
}

proof fn lemma_counts_step(ss: Seq<(usize, u64)>, j: int)
    requires
        0 <= j < ss.len(),
    ensures
        counts_cat(ss.take(j + 1)) == counts_cat(ss.take(j)) + count_item(ss[j]),
{
    assert(ss.take(j + 1).drop_last() =~= ss.take(j));
}

proof fn lemma_counts_prefix(ss: Seq<(usize, u64)>, j: int)
    requires
        0 <= j <= ss.len(),
    ensures
        counts_cat(ss.take(j)).len() <= counts_cat(ss).len(),
        counts_cat(ss).subrange(0, counts_cat(ss.take(j)).len() as int) == counts_cat(ss.take(j)),
    decreases ss.len(),
{
    if j == ss.len() {
        assert(ss.take(j) =~= ss);
    } else {
        lemma_counts_prefix(ss.drop_last(), j);
        assert(ss.drop_last().take(j) =~= ss.take(j));
        let a = counts_cat(ss.drop_last());
        let b = count_item(ss.last());
        assert((a + b).subrange(0, counts_cat(ss.take(j)).len() as int) =~= a.subrange(
            0,
            counts_cat(ss.take(j)).len() as int,
        ));
    }
}

/// Bytes of a list of keys items, one after the other.
pub open spec fn keys_cat(ss: Seq<Seq<char>>) -> Seq<u8>
    decreases ss.len(),
{
    if ss.len() == 0 {
        Seq::empty()
    } else {
        keys_cat(ss.drop_last()) + key_item(ss.last())
    }
}

/// Every keys item is valid.
pub open spec fn keys_all_ok(ss: Seq<Seq<char>>) -> bool {
    forall|i: int| 0 <= i < ss.len() ==> key_ok(#[trigger] ss[i])
}

proof fn lemma_keys_step(ss: Seq<Seq<char>>, j: int)
    requires
        0 <= j < ss.len(),
    ensures
        keys_cat(ss.take(j + 1)) == keys_cat(ss.take(j)) + key_item(ss[j]),
{
    assert(ss.take(j + 1).drop_last() =~= ss.take(j));
}

proof fn lemma_keys_prefix(ss: Seq<Seq<char>>, j: int)
    requires
        0 <= j <= ss.len(),
    ensures
        keys_cat(ss.take(j)).len() <= keys_cat(ss).len(),
        keys_cat(ss).subrange(0, keys_cat(ss.take(j)).len() as int) == keys_cat(ss.take(j)),
    decreases ss.len(),
{
    if j == ss.len() {
        assert(ss.take(j) =~= ss);
    } else {
        lemma_keys_prefix(ss.drop_last(), j);
        assert(ss.drop_last().take(j) =~= ss.take(j));
        let a = keys_cat(ss.drop_last());
        let b = key_item(ss.last());
        assert((a + b).subrange(0, keys_cat(ss.take(j)).len() as int) =~= a.subrange(
            0,
            keys_cat(ss.take(j)).len() as int,
        ));
    }
}

/// Bytes of a list of words items, one after the other.
pub open spec fn words_cat(ss: Seq<u64>) -> Seq<u8>
    decreases ss.len(),
{
    if ss.len() == 0 {
        Seq::empty()
    } else {
        words_cat(ss.drop_last()) + word_item(ss.last())
    }
}

/// Every words item is valid.
pub open spec fn words_all_ok(ss: Seq<u64>) -> bool {
    forall|i: int| 0 <= i < ss.len() ==> word_ok(#[trigger] ss[i])
}

proof fn lemma_words_step(ss: Seq<u64>, j: int)
    requires
        0 <= j < ss.len(),
    ensures
        words_cat(ss.take(j + 1)) == words_cat(ss.take(j)) + word_item(ss[j]),
{
    assert(ss.take(j + 1).drop_last() =~= ss.take(j));
}

proof fn lemma_words_prefix(ss: Seq<u64>, j: int)
    requires
        0 <= j <= ss.len(),
    ensures
        words_cat(ss.take(j)).len() <= words_cat(ss).len(),
        words_cat(ss).subrange(0, words_cat(ss.take(j)).len() as int) == words_cat(ss.take(j)),
    decreases ss.len(),
{
    if j == ss.len() {
        assert(ss.take(j) =~= ss);
    } else {
        lemma_words_prefix(ss.drop_last(), j);
        assert(ss.drop_last().take(j) =~= ss.take(j));
        let a = words_cat(ss.drop_last());
        let b = word_item(ss.last());
        assert((a + b).subrange(0, words_cat(ss.take(j)).len() as int) =~= a.subrange(
            0,
            words_cat(ss.take(j)).len() as int,
        ));
    }
}

/// Bytes of a list of pdocs items, one after the other.
pub open spec fn pdocs_cat(ss: Seq<(Seq<char>, u32, bool)>) -> Seq<u8>
    decreases ss.len(),
{
    if ss.len() == 0 {
        Seq::empty()
    } else {
        pdocs_cat(ss.drop_last()) + pdoc_item(ss.last())
    }
}

/// Every pdocs item is valid.
pub open spec fn pdocs_all_ok(ss: Seq<(Seq<char>, u32, bool)>) -> bool {
    forall|i: int| 0 <= i < ss.len() ==> pdoc_ok(#[trigger] ss[i])
}

proof fn lemma_pdocs_step(ss: Seq<(Seq<char>, u32, bool)>, j: int)
    requires
        0 <= j < ss.len(),
    ensures
        pdocs_cat(ss.take(j + 1)) == pdocs_cat(ss.take(j)) + pdoc_item(ss[j]),
{
    assert(ss.take(j + 1).drop_last() =~= ss.take(j));
}

proof fn lemma_pdocs_prefix(ss: Seq<(Seq<char>, u32, bool)>, j: int)
    requires
        0 <= j <= ss.len(),
    ensures
        pdocs_cat(ss.take(j)).len() <= pdocs_cat(ss).len(),
        pdocs_cat(ss).subrange(0, pdocs_cat(ss.take(j)).len() as int) == pdocs_cat(ss.take(j)),
    decreases ss.len(),
{
    if j == ss.len() {
        assert(ss.take(j) =~= ss);
    } else {
        lemma_pdocs_prefix(ss.drop_last(), j);
        assert(ss.drop_last().take(j) =~= ss.take(j));
        let a = pdocs_cat(ss.drop_last());
        let b = pdoc_item(ss.last());
        assert((a + b).subrange(0, pdocs_cat(ss.take(j)).len() as int) =~= a.subrange(
            0,
            pdocs_cat(ss.take(j)).len() as int,
        ));
    }
}

/// Bytes of a list of doclens items, one after the other.
pub open spec fn doclens_cat(ss: Seq<(Seq<char>, u32)>) -> Seq<u8>
    decreases ss.len(),
{
    if ss.len() == 0 {
        Seq::empty()
    } else {
        doclens_cat(ss.drop_last()) + doclen_item(ss.last())
    }
}

/// Every doclens item is valid.
pub open spec fn doclens_all_ok(ss: Seq<(Seq<char>, u32)>) -> bool {
    forall|i: int| 0 <= i < ss.len() ==> doclen_ok(#[trigger] ss[i])
}

proof fn lemma_doclens_step(ss: Seq<(Seq<char>, u32)>, j: int)
    requires
        0 <= j < ss.len(),
    ensures
        doclens_cat(ss.take(j + 1)) == doclens_cat(ss.take(j)) + doclen_item(ss[j]),
{
    assert(ss.take(j + 1).drop_last() =~= ss.take(j));
}

proof fn lemma_doclens_prefix(ss: Seq<(Seq<char>, u32)>, j: int)
    requires
        0 <= j <= ss.len(),
    ensures
        doclens_cat(ss.take(j)).len() <= doclens_cat(ss).len(),
        doclens_cat(ss).subrange(0, doclens_cat(ss.take(j)).len() as int) == doclens_cat(ss.take(j)),
    decreases ss.len(),
{
    if j == ss.len() {
        assert(ss.take(j) =~= ss);
    } else {
        lemma_doclens_prefix(ss.drop_last(), j);
        assert(ss.drop_last().take(j) =~= ss.take(j));
        let a = doclens_cat(ss.drop_last());
        let b = doclen_item(ss.last());
        assert((a + b).subrange(0, doclens_cat(ss.take(j)).len() as int) =~= a.subrange(
            0,
            doclens_cat(ss.take(j)).len() as int,
        ));
    }
}

pub open spec fn ent_item(e: (Seq<char>, Seq<Seq<char>>)) -> Seq<u8> {
    str16_wire(e.0) + spec_u32_to_le_bytes(e.1.len() as u32) + keys_cat(e.1)
}

pub open spec fn ent_ok(e: (Seq<char>, Seq<Seq<char>>)) -> bool {
    encode_utf8(e.0).len() <= u16::MAX && e.1.len() <= u32::MAX && keys_all_ok(e.1)
}

pub open spec fn term_item(t: (Seq<char>, Seq<(Seq<char>, u32, bool)>)) -> Seq<u8> {
    str16_wire(t.0) + spec_u32_to_le_bytes(t.1.len() as u32) + pdocs_cat(t.1)
}

pub open spec fn term_ok(t: (Seq<char>, Seq<(Seq<char>, u32, bool)>)) -> bool {
    encode_utf8(t.0).len() <= u16::MAX && t.1.len() <= u32::MAX && pdocs_all_ok(t.1)
}

pub open spec fn bq_item(e: (Seq<char>, Seq<u64>)) -> Seq<u8> {
    str16_wire(e.0) + spec_u16_to_le_bytes(e.1.len() as u16) + words_cat(e.1)
}

pub open spec fn bq_ok(e: (Seq<char>, Seq<u64>)) -> bool {
    encode_utf8(e.0).len() <= MAX_KLEN && e.1.len() <= MAX_SNAPSHOT_WORDS
}

/// Bytes of a list of ents items, one after the other.
pub open spec fn ents_cat(ss: Seq<(Seq<char>, Seq<Seq<char>>)>) -> Seq<u8>
    decreases ss.len(),
{
    if ss.len() == 0 {
        Seq::empty()
    } else {
        ents_cat(ss.drop_last()) + ent_item(ss.last())
    }
}

/// Every ents item is valid.
pub open spec fn ents_all_ok(ss: Seq<(Seq<char>, Seq<Seq<char>>)>) -> bool {
    forall|i: int| 0 <= i < ss.len() ==> ent_ok(#[trigger] ss[i])
}

proof fn lemma_ents_step(ss: Seq<(Seq<char>, Seq<Seq<char>>)>, j: int)
    requires
        0 <= j < ss.len(),
    ensures
        ents_cat(ss.take(j + 1)) == ents_cat(ss.take(j)) + ent_item(ss[j]),
{
    assert(ss.take(j + 1).drop_last() =~= ss.take(j));
}

proof fn lemma_ents_prefix(ss: Seq<(Seq<char>, Seq<Seq<char>>)>, j: int)
    requires
        0 <= j <= ss.len(),
    ensures
        ents_cat(ss.take(j)).len() <= ents_cat(ss).len(),
        ents_cat(ss).subrange(0, ents_cat(ss.take(j)).len() as int) == ents_cat(ss.take(j)),
    decreases ss.len(),
{
    if j == ss.len() {
        assert(ss.take(j) =~= ss);
    } else {
        lemma_ents_prefix(ss.drop_last(), j);
        assert(ss.drop_last().take(j) =~= ss.take(j));
        let a = ents_cat(ss.drop_last());
        let b = ent_item(ss.last());
        assert((a + b).subrange(0, ents_cat(ss.take(j)).len() as int) =~= a.subrange(
            0,
            ents_cat(ss.take(j)).len() as int,
        ));
    }
}

/// Bytes of a list of terms items, one after the other.
pub open spec fn terms_cat(ss: Seq<(Seq<char>, Seq<(Seq<char>, u32, bool)>)>) -> Seq<u8>
    decreases ss.len(),
{
    if ss.len() == 0 {
        Seq::empty()
    } else {
        terms_cat(ss.drop_last()) + term_item(ss.last())
    }
}

/// Every terms item is valid.
pub open spec fn terms_all_ok(ss: Seq<(Seq<char>, Seq<(Seq<char>, u32, bool)>)>) -> bool {
    forall|i: int| 0 <= i < ss.len() ==> term_ok(#[trigger] ss[i])
}

proof fn lemma_terms_step(ss: Seq<(Seq<char>, Seq<(Seq<char>, u32, bool)>)>, j: int)
    requires
        0 <= j < ss.len(),
    ensures
        terms_cat(ss.take(j + 1)) == terms_cat(ss.take(j)) + term_item(ss[j]),
{
    assert(ss.take(j + 1).drop_last() =~= ss.take(j));
}

proof fn lemma_terms_prefix(ss: Seq<(Seq<char>, Seq<(Seq<char>, u32, bool)>)>, j: int)
    requires
        0 <= j <= ss.len(),
    ensures
        terms_cat(ss.take(j)).len() <= terms_cat(ss).len(),
        terms_cat(ss).subrange(0, terms_cat(ss.take(j)).len() as int) == terms_cat(ss.take(j)),
    decreases ss.len(),
{
    if j == ss.len() {
        assert(ss.take(j) =~= ss);
    } else {
        lemma_terms_prefix(ss.drop_last(), j);
        assert(ss.drop_last().take(j) =~= ss.take(j));
        let a = terms_cat(ss.drop_last());
        let b = term_item(ss.last());
        assert((a + b).subrange(0, terms_cat(ss.take(j)).len() as int) =~= a.subrange(
            0,
            terms_cat(ss.take(j)).len() as int,
        ));
    }
}

/// Bytes of a list of bqs items, one after the other.
pub open spec fn bqs_cat(ss: Seq<(Seq<char>, Seq<u64>)>) -> Seq<u8>
    decreases ss.len(),
{
    if ss.len() == 0 {
        Seq::empty()
    } else {
        bqs_cat(ss.drop_last()) + bq_item(ss.last())
    }
}

/// Every bqs item is valid.
pub open spec fn bqs_all_ok(ss: Seq<(Seq<char>, Seq<u64>)>) -> bool {
    forall|i: int| 0 <= i < ss.len() ==> bq_ok(#[trigger] ss[i])
}

proof fn lemma_bqs_step(ss: Seq<(Seq<char>, Seq<u64>)>, j: int)
    requires
        0 <= j < ss.len(),
    ensures
        bqs_cat(ss.take(j + 1)) == bqs_cat(ss.take(j)) + bq_item(ss[j]),
{
    assert(ss.take(j + 1).drop_last() =~= ss.take(j));
}

proof fn lemma_bqs_prefix(ss: Seq<(Seq<char>, Seq<u64>)>, j: int)
    requires
        0 <= j <= ss.len(),
    ensures
        bqs_cat(ss.take(j)).len() <= bqs_cat(ss).len(),
        bqs_cat(ss).subrange(0, bqs_cat(ss.take(j)).len() as int) == bqs_cat(ss.take(j)),
    decreases ss.len(),
{
    if j == ss.len() {
        assert(ss.take(j) =~= ss);
    } else {
        lemma_bqs_prefix(ss.drop_last(), j);
        assert(ss.drop_last().take(j) =~= ss.take(j));
        let a = bqs_cat(ss.drop_last());
        let b = bq_item(ss.last());
        assert((a + b).subrange(0, bqs_cat(ss.take(j)).len() as int) =~= a.subrange(
            0,
            bqs_cat(ss.take(j)).len() as int,
        ));
    }
}

pub open spec fn dims_views(v: Seq<usize>) -> Seq<usize> {
    v.map_values(|x: usize| same_usize(x))
}

pub open spec fn counts_views(v: Seq<(usize, u64)>) -> Seq<(usize, u64)> {
    v.map_values(|x: (usize, u64)| same_count(x))
}

pub open spec fn keys_views(v: Seq<String>) -> Seq<Seq<char>> {
    v.map_values(|x: String| text_of(x))
}

pub open spec fn words_views(v: Seq<u64>) -> Seq<u64> {
    v.map_values(|x: u64| same_word(x))
}

pub open spec fn pdocs_views(v: Seq<(String, u32, bool)>) -> Seq<(Seq<char>, u32, bool)> {
    v.map_values(|x: (String, u32, bool)| pdoc_view(x))
}

pub open spec fn pdocs_canon(v: Seq<(String, u32)>) -> Seq<(Seq<char>, u32, bool)> {
    v.map_values(|x: (String, u32)| pdoc_canon(x))
}

pub open spec fn doclens_views(v: Seq<(String, u32)>) -> Seq<(Seq<char>, u32)> {
    v.map_values(|x: (String, u32)| doclen_view(x))
}

pub open spec fn ents_views(v: Seq<(String, Vec<String>)>) -> Seq<(Seq<char>, Seq<Seq<char>>)> {
    v.map_values(|x: (String, Vec<String>)| ent_view(x))
}

pub open spec fn terms_views(v: Seq<(String, Vec<(String, u32, bool)>)>) -> Seq<(Seq<char>, Seq<(Seq<char>, u32, bool)>)> {
    v.map_values(|x: (String, Vec<(String, u32, bool)>)| term_view(x))
}

pub open spec fn terms_canon(v: Seq<(String, Vec<(String, u32)>)>) -> Seq<(Seq<char>, Seq<(Seq<char>, u32, bool)>)> {
    v.map_values(|x: (String, Vec<(String, u32)>)| term_canon(x))
}

pub open spec fn bqs_views(v: Seq<(String, Vec<u64>)>) -> Seq<(Seq<char>, Seq<u64>)> {
    v.map_values(|x: (String, Vec<u64>)| bq_view(x))
}

proof fn lemma_str16_len(d: Seq<u8>, off: int, s: Seq<char>)
    requires
        encode_utf8(s).len() <= u16::MAX,
    ensures
        bytes_at(d, off, str16_wire(s)) ==> off + 2 <= d.len() && spec_u16_from_le_bytes(d.subrange(off, off + 2))
            == encode_utf8(s).len(),
{
    lemma_le_bytes_roundtrip();
    if bytes_at(d, off, str16_wire(s)) {
        let h = spec_u16_to_le_bytes(encode_utf8(s).len() as u16);
        lemma_bytes_at_concat(d, off, h, encode_utf8(s));
    }
}

proof fn lemma_sec_head(d: Seq<u8>, off: int, n: u32, body: Seq<u8>)
    ensures
        bytes_at(d, off, spec_u32_to_le_bytes(n) + body) <==> (off + 4 <= d.len() && 0 <= off
            && spec_u32_from_le_bytes(d.subrange(off, off + 4)) == n && bytes_at(d, off + 4, body)),
{
    lemma_le_bytes_roundtrip();
    lemma_bytes_at_concat(d, off, spec_u32_to_le_bytes(n), body);
    if off + 4 <= d.len() && 0 <= off && spec_u32_from_le_bytes(d.subrange(off, off + 4)) == n {
        assert(spec_u32_to_le_bytes(spec_u32_from_le_bytes(d.subrange(off, off + 4))) == d.subrange(off, off + 4));
    }
}

/// Three consecutive fields.
proof fn lemma_three(d: Seq<u8>, off: int, a: Seq<u8>, b: Seq<u8>, c: Seq<u8>)
    ensures
        bytes_at(d, off, a + b + c) <==> bytes_at(d, off, a) && bytes_at(d, off + a.len(), b) && bytes_at(
            d,
            off + a.len() + b.len(),
            c,
        ),
{
    lemma_bytes_at_concat(d, off, a + b, c);
    lemma_bytes_at_concat(d, off, a, b);
}

fn read_dim(data: &[u8], off: usize) -> (r: Result<(usize, usize), &'static str>)
    requires
        off <= data@.len(),
    ensures
        r matches Ok((x, o2)) ==> dim_ok(same_usize(x)) && bytes_at(data@, off as int, dim_item(same_usize(x))) && o2
            == off + dim_item(same_usize(x)).len(),
        forall|y: usize|
            dim_ok(y) && #[trigger] bytes_at(data@, off as int, dim_item(y)) ==> (r matches Ok((x, o2)) && same_usize(x)
                == y && o2 == off + dim_item(y).len()),
{
    let dlen = data.len();
    assert(dlen == data@.len());
    proof {
        lemma_le_bytes_roundtrip();
    }
    match rd_u32(data, off) {
        Some(d) => {
            proof {
                assert(spec_u32_to_le_bytes(spec_u32_from_le_bytes(data@.subrange(off as int, off + 4)))
                    == data@.subrange(off as int, off + 4));
            }
            Ok((d as usize, off + 4))
        },
        None => Err("trunc dim"),
    }
}

fn read_count(data: &[u8], off: usize) -> (r: Result<((usize, u64), usize), &'static str>)
    requires
        off <= data@.len(),
    ensures
        r matches Ok((x, o2)) ==> count_ok(same_count(x)) && bytes_at(data@, off as int, count_item(same_count(x))) && o2
            == off + count_item(same_count(x)).len(),
        forall|y: (usize, u64)|
            count_ok(y) && #[trigger] bytes_at(data@, off as int, count_item(y)) ==> (r matches Ok((x, o2)) && same_count(x)
                == y && o2 == off + count_item(y).len()),
{
    let dlen = data.len();
    assert(dlen == data@.len());
    proof {
        lemma_le_bytes_roundtrip();
    }
    let d = match rd_u32(data, off) {
        Some(d) => d,
        None => {
            proof {
                assert forall|y: (usize, u64)| count_ok(y) && #[trigger] bytes_at(data@, off as int, count_item(y)) implies false by {
                    lemma_bytes_at_concat(data@, off as int, spec_u32_to_le_bytes(y.0 as u32), spec_u64_to_le_bytes(y.1));
                }
            }
            return Err("trunc cdim");
        },
    };
    let c = match rd_u64(data, off + 4) {
        Some(c) => c,
        None => {
            proof {
                assert forall|y: (usize, u64)| count_ok(y) && #[trigger] bytes_at(data@, off as int, count_item(y)) implies false by {
                    lemma_bytes_at_concat(data@, off as int, spec_u32_to_le_bytes(y.0 as u32), spec_u64_to_le_bytes(y.1));
                }
            }
            return Err("trunc ccount");
        },
    };
    proof {
        assert(spec_u32_to_le_bytes(spec_u32_from_le_bytes(data@.subrange(off as int, off + 4)))
            == data@.subrange(off as int, off + 4));
        assert(spec_u64_to_le_bytes(spec_u64_from_le_bytes(data@.subrange(off + 4, off + 12)))
            == data@.subrange(off + 4, off + 12));
        lemma_bytes_at_concat(data@, off as int, spec_u32_to_le_bytes(d), spec_u64_to_le_bytes(c));
        assert forall|y: (usize, u64)| count_ok(y) && #[trigger] bytes_at(data@, off as int, count_item(y)) implies y
            == (d as usize, c) by {
            lemma_bytes_at_concat(data@, off as int, spec_u32_to_le_bytes(y.0 as u32), spec_u64_to_le_bytes(y.1));
        }
    }
    Ok(((d as usize, c), off + 12))
}

fn read_word(data: &[u8], off: usize) -> (r: Result<(u64, usize), &'static str>)
    requires
        off <= data@.len(),
    ensures
        r matches Ok((x, o2)) ==> word_ok(same_word(x)) && bytes_at(data@, off as int, word_item(same_word(x))) && o2
            == off + word_item(same_word(x)).len(),
        forall|y: u64|
            word_ok(y) && #[trigger] bytes_at(data@, off as int, word_item(y)) ==> (r matches Ok((x, o2)) && same_word(x)
                == y && o2 == off + word_item(y).len()),
{
    let dlen = data.len();
    assert(dlen == data@.len());
    proof {
        lemma_le_bytes_roundtrip();
    }
    match rd_u64(data, off) {
        Some(w) => {
            proof {
                assert(spec_u64_to_le_bytes(spec_u64_from_le_bytes(data@.subrange(off as int, off + 8)))
                    == data@.subrange(off as int, off + 8));
            }
            Ok((w, off + 8))
        },
        None => Err("trunc bq_word"),
    }
}

fn key_err(e: StrFieldError) -> (r: &'static str)
    ensures
        r@ == (match e {
            StrFieldError::TruncLen => "trunc klen"@,
            StrFieldError::Overflow => "klen overflow"@,
            StrFieldError::TruncBytes => "trunc key"@,
            StrFieldError::Utf8 => "utf8 key"@,
        }),
{
    match e {
        StrFieldError::TruncLen => "trunc klen",
        StrFieldError::Overflow => "klen overflow",
        StrFieldError::TruncBytes => "trunc key",
        StrFieldError::Utf8 => "utf8 key",
    }
}

fn skey_err(e: StrFieldError) -> (r: &'static str)
    ensures
        r@ == (match e {
            StrFieldError::TruncLen => "trunc slen"@,
            StrFieldError::Overflow => "slen overflow"@,
            StrFieldError::TruncBytes => "trunc skey"@,
            StrFieldError::Utf8 => "utf8 skey"@,
        }),
{
    match e {
        StrFieldError::TruncLen => "trunc slen",
        StrFieldError::Overflow => "slen overflow",
        StrFieldError::TruncBytes => "trunc skey",
        StrFieldError::Utf8 => "utf8 skey",
    }
}

fn bqkey_err(e: StrFieldError) -> (r: &'static str)
    ensures
        r@ == (match e {
            StrFieldError::TruncLen => "trunc bq_slen"@,
            StrFieldError::Overflow => "bq slen overflow"@,
            StrFieldError::TruncBytes => "trunc bq_sk"@,
            StrFieldError::Utf8 => "utf8 bq_sk"@,
        }),
{
    match e {
        StrFieldError::TruncLen => "trunc bq_slen",
        StrFieldError::Overflow => "bq slen overflow",
        StrFieldError::TruncBytes => "trunc bq_sk",
        StrFieldError::Utf8 => "utf8 bq_sk",
    }
}

fn ent_err(e: StrFieldError) -> (r: &'static str)
    ensures
        r@ == (match e {
            StrFieldError::TruncLen => "trunc elen"@,
            StrFieldError::Overflow => "elen overflow"@,
            StrFieldError::TruncBytes => "trunc ent"@,
            StrFieldError::Utf8 => "utf8 ent"@,
        }),
{
    match e {
        StrFieldError::TruncLen => "trunc elen",
        StrFieldError::Overflow => "elen overflow",
        StrFieldError::TruncBytes => "trunc ent",
        StrFieldError::Utf8 => "utf8 ent",
    }
}

fn term_err(e: StrFieldError) -> (r: &'static str)
    ensures
        r@ == (match e {
            StrFieldError::TruncLen => "trunc tlen"@,
            StrFieldError::Overflow => "tlen overflow"@,
            StrFieldError::TruncBytes => "trunc term"@,
            StrFieldError::Utf8 => "utf8 term"@,
        }),
{
    match e {
        StrFieldError::TruncLen => "trunc tlen",
        StrFieldError::Overflow => "tlen overflow",
        StrFieldError::TruncBytes => "trunc term",
        StrFieldError::Utf8 => "utf8 term",
    }
}

fn ldoc_err(e: StrFieldError) -> (r: &'static str)
    ensures
        r@ == (match e {
            StrFieldError::TruncLen => "trunc dlen"@,
            StrFieldError::Overflow => "dlen overflow"@,
            StrFieldError::TruncBytes => "trunc ldoc"@,
            StrFieldError::Utf8 => "utf8 ldoc"@,
        }),
{
    match e {
        StrFieldError::TruncLen => "trunc dlen",
        StrFieldError::Overflow => "dlen overflow",
        StrFieldError::TruncBytes => "trunc ldoc",
        StrFieldError::Utf8 => "utf8 ldoc",
    }
}

fn dl_err(e: StrFieldError) -> (r: &'static str)
    ensures
        r@ == (match e {
            StrFieldError::TruncLen => "trunc dllen"@,
            StrFieldError::Overflow => "dllen overflow"@,
            StrFieldError::TruncBytes => "trunc ldoc_len"@,
            StrFieldError::Utf8 => "utf8 ldoc_len"@,
        }),
{
    match e {
        StrFieldError::TruncLen => "trunc dllen",
        StrFieldError::Overflow => "dllen overflow",
        StrFieldError::TruncBytes => "trunc ldoc_len",
        StrFieldError::Utf8 => "utf8 ldoc_len",
    }
}

fn read_key(data: &[u8], off: usize) -> (r: Result<(String, usize), &'static str>)
    requires
        off <= data@.len(),
    ensures
        r matches Ok((x, o2)) ==> key_ok(text_of(x)) && bytes_at(data@, off as int, key_item(text_of(x))) && o2
            == off + key_item(text_of(x)).len(),
        forall|y: Seq<char>|
            key_ok(y) && #[trigger] bytes_at(data@, off as int, key_item(y)) ==> (r matches Ok((x, o2)) && text_of(x)
                == y && o2 == off + key_item(y).len()),
{
    let dlen = data.len();
    assert(dlen == data@.len());
    let len = match rd_u16(data, off) {
        Some(l) => l as usize,
        None => {
            proof {
                assert forall|y: Seq<char>| key_ok(y) && #[trigger] bytes_at(data@, off as int, key_item(y)) implies false by {
                    lemma_str16_len(data@, off as int, y);
                }
            }
            return Err("trunc klen");
        },
    };
    if len > MAX_KLEN {
        proof {
            assert forall|y: Seq<char>| key_ok(y) && #[trigger] bytes_at(data@, off as int, key_item(y)) implies false by {
                lemma_str16_len(data@, off as int, y);
            }
        }
        return Err("klen over limit");
    }
    match read_str16(data, off) {
        Ok((s, o2)) => {
            proof {
                lemma_str16_len(data@, off as int, s@);
            }
            Ok((s, o2))
        },
        Err(e) => {
            proof {
                assert forall|y: Seq<char>| key_ok(y) && #[trigger] bytes_at(data@, off as int, key_item(y)) implies false by {
                    assert(bytes_at(data@, off as int, str16_wire(y)));
                }
            }
            Err(key_err(e))
        },
    }
}

fn read_skey(data: &[u8], off: usize) -> (r: Result<(String, usize), &'static str>)
    requires
        off <= data@.len(),
    ensures
        r matches Ok((x, o2)) ==> key_ok(text_of(x)) && bytes_at(data@, off as int, key_item(text_of(x))) && o2
            == off + key_item(text_of(x)).len(),
        forall|y: Seq<char>|
            key_ok(y) && #[trigger] bytes_at(data@, off as int, key_item(y)) ==> (r matches Ok((x, o2)) && text_of(x)
                == y && o2 == off + key_item(y).len()),
{
    let dlen = data.len();
    assert(dlen == data@.len());
    let len = match rd_u16(data, off) {
        Some(l) => l as usize,
        None => {
            proof {
                assert forall|y: Seq<char>| key_ok(y) && #[trigger] bytes_at(data@, off as int, key_item(y)) implies false by {
                    lemma_str16_len(data@, off as int, y);
                }
            }
            return Err("trunc slen");
        },
    };
    if len > MAX_KLEN {
        proof {
            assert forall|y: Seq<char>| key_ok(y) && #[trigger] bytes_at(data@, off as int, key_item(y)) implies false by {
                lemma_str16_len(data@, off as int, y);
            }
        }
        return Err("slen over limit");
    }
    match read_str16(data, off) {
        Ok((s, o2)) => {
            proof {
                lemma_str16_len(data@, off as int, s@);
            }
            Ok((s, o2))
        },
        Err(e) => {
            proof {
                assert forall|y: Seq<char>| key_ok(y) && #[trigger] bytes_at(data@, off as int, key_item(y)) implies false by {
                    assert(bytes_at(data@, off as int, str16_wire(y)));
                }
            }
            Err(skey_err(e))
        },
    }
}

fn read_bqkey(data: &[u8], off: usize) -> (r: Result<(String, usize), &'static str>)
    requires
        off <= data@.len(),
    ensures
        r matches Ok((x, o2)) ==> key_ok(text_of(x)) && bytes_at(data@, off as int, key_item(text_of(x))) && o2
            == off + key_item(text_of(x)).len(),
        forall|y: Seq<char>|
            key_ok(y) && #[trigger] bytes_at(data@, off as int, key_item(y)) ==> (r matches Ok((x, o2)) && text_of(x)
                == y && o2 == off + key_item(y).len()),
{
    let dlen = data.len();
    assert(dlen == data@.len());
    let len = match rd_u16(data, off) {
        Some(l) => l as usize,
        None => {
            proof {
                assert forall|y: Seq<char>| key_ok(y) && #[trigger] bytes_at(data@, off as int, key_item(y)) implies false by {
                    lemma_str16_len(data@, off as int, y);
                }
            }
            return Err("trunc bq_slen");
        },
    };
    if len > MAX_KLEN {
        proof {
            assert forall|y: Seq<char>| key_ok(y) && #[trigger] bytes_at(data@, off as int, key_item(y)) implies false by {
                lemma_str16_len(data@, off as int, y);
            }
        }
        return Err("bq slen over limit");
    }
    match read_str16(data, off) {
        Ok((s, o2)) => {
            proof {
                lemma_str16_len(data@, off as int, s@);
            }
            Ok((s, o2))
        },
        Err(e) => {
            proof {
                assert forall|y: Seq<char>| key_ok(y) && #[trigger] bytes_at(data@, off as int, key_item(y)) implies false by {
                    assert(bytes_at(data@, off as int, str16_wire(y)));
                }
            }
            Err(bqkey_err(e))
        },
    }
}

fn read_keys_list(data: &[u8], off: usize, n: usize) -> (r: Result<(Vec<String>, usize), &'static str>)
    requires
        off <= data@.len(),
    ensures
        r matches Ok((v, o2)) ==> v@.len() == n && keys_all_ok(keys_views(v@)) && bytes_at(
            data@,
            off as int,
            keys_cat(keys_views(v@)),
        ) && o2 == off + keys_cat(keys_views(v@)).len(),
        forall|ss: Seq<Seq<char>>|
            ss.len() == n && keys_all_ok(ss) && #[trigger] bytes_at(data@, off as int, keys_cat(ss))
                ==> (r matches Ok((v, o2)) && keys_views(v@) == ss && o2 == off + keys_cat(ss).len()),
{
    let dlen = data.len();
    assert(dlen == data@.len());
    let mut v: Vec<String> = Vec::new();
    let mut o = off;
    let mut i: usize = 0;
    proof {
        assert(keys_views(v@) =~= Seq::<Seq<char>>::empty());
        assert(keys_cat(Seq::<Seq<char>>::empty()) =~= Seq::<u8>::empty());
        assert(data@.subrange(off as int, off as int) =~= Seq::<u8>::empty());
    }
    while i < n
        invariant
            0 <= i <= n,
            v@.len() == i,
            o == off + keys_cat(keys_views(v@)).len(),
            off <= data@.len(),
            bytes_at(data@, off as int, keys_cat(keys_views(v@))),
            keys_all_ok(keys_views(v@)),
            forall|ss: Seq<Seq<char>>|
                ss.len() == n && keys_all_ok(ss) && #[trigger] bytes_at(data@, off as int, keys_cat(ss))
                    ==> keys_views(v@) == ss.take(i as int),
        decreases n - i,
    {
        let (t, o2) = match read_key(data, o) {
            Ok(x) => x,
            Err(e) => {
                proof {
                    assert forall|ss: Seq<Seq<char>>|
                        ss.len() == n && keys_all_ok(ss) && #[trigger] bytes_at(data@, off as int, keys_cat(ss))
                        implies false by {
                        lemma_keys_prefix(ss, i + 1);
                        lemma_keys_step(ss, i as int);
                        lemma_bytes_at_prefix(data@, off as int, keys_cat(ss), keys_cat(ss.take(i + 1)).len() as int);
                        lemma_bytes_at_concat(data@, off as int, keys_cat(ss.take(i as int)), key_item(ss[i as int]));
                        assert(key_ok(ss[i as int]));
                    }
                }
                return Err(e);
            },
        };
        proof {
            let w = keys_views(v@).push(text_of(t));
            assert(keys_views(v@.push(t)) =~= w);
            lemma_keys_step(w, i as int);
            assert(w.take(i as int) =~= keys_views(v@));
            assert(w.take(i + 1) =~= w);
            lemma_bytes_at_concat(data@, off as int, keys_cat(keys_views(v@)), key_item(text_of(t)));
            assert forall|ss: Seq<Seq<char>>|
                ss.len() == n && keys_all_ok(ss) && #[trigger] bytes_at(data@, off as int, keys_cat(ss))
                implies w == ss.take(i + 1) by {
                lemma_keys_prefix(ss, i + 1);
                lemma_keys_step(ss, i as int);
                lemma_bytes_at_prefix(data@, off as int, keys_cat(ss), keys_cat(ss.take(i + 1)).len() as int);
                lemma_bytes_at_concat(data@, off as int, keys_cat(ss.take(i as int)), key_item(ss[i as int]));
                assert(key_ok(ss[i as int]));
                assert(ss.take(i + 1) =~= ss.take(i as int).push(ss[i as int]));
            }
            assert forall|j: int| 0 <= j < i + 1 implies key_ok(#[trigger] w[j]) by {
                if j < i {
                    assert(w[j] == keys_views(v@)[j]);
                }
            }
        }
        v.push(t);
        o = o2;
        i += 1;
    }
    proof {
        if n == 0 {
            assert forall|ss: Seq<Seq<char>>|
                ss.len() == n && keys_all_ok(ss) && #[trigger] bytes_at(data@, off as int, keys_cat(ss))
                implies keys_views(v@) == ss by {
                assert(ss =~= Seq::<Seq<char>>::empty());
            }
        } else {
            assert forall|ss: Seq<Seq<char>>|
                ss.len() == n && keys_all_ok(ss) && #[trigger] bytes_at(data@, off as int, keys_cat(ss))
                implies keys_views(v@) == ss by {
                assert(ss.take(n as int) =~= ss);
            }
        }
    }
    Ok((v, o))
}

fn read_skeys_list(data: &[u8], off: usize, n: usize) -> (r: Result<(Vec<String>, usize), &'static str>)
    requires
        off <= data@.len(),
    ensures
        r matches Ok((v, o2)) ==> v@.len() == n && keys_all_ok(keys_views(v@)) && bytes_at(
            data@,
            off as int,
            keys_cat(keys_views(v@)),
        ) && o2 == off + keys_cat(keys_views(v@)).len(),
        forall|ss: Seq<Seq<char>>|
            ss.len() == n && keys_all_ok(ss) && #[trigger] bytes_at(data@, off as int, keys_cat(ss))
                ==> (r matches Ok((v, o2)) && keys_views(v@) == ss && o2 == off + keys_cat(ss).len()),
{
    let dlen = data.len();
    assert(dlen == data@.len());
    let mut v: Vec<String> = Vec::new();
    let mut o = off;
    let mut i: usize = 0;
    proof {
        assert(keys_views(v@) =~= Seq::<Seq<char>>::empty());
        assert(keys_cat(Seq::<Seq<char>>::empty()) =~= Seq::<u8>::empty());
        assert(data@.subrange(off as int, off as int) =~= Seq::<u8>::empty());
    }
    while i < n
        invariant
            0 <= i <= n,
            v@.len() == i,
            o == off + keys_cat(keys_views(v@)).len(),
            off <= data@.len(),
            bytes_at(data@, off as int, keys_cat(keys_views(v@))),
            keys_all_ok(keys_views(v@)),
            forall|ss: Seq<Seq<char>>|
                ss.len() == n && keys_all_ok(ss) && #[trigger] bytes_at(data@, off as int, keys_cat(ss))
                    ==> keys_views(v@) == ss.take(i as int),
        decreases n - i,
    {
        let (t, o2) = match read_skey(data, o) {
            Ok(x) => x,
            Err(e) => {
                proof {
                    assert forall|ss: Seq<Seq<char>>|
                        ss.len() == n && keys_all_ok(ss) && #[trigger] bytes_at(data@, off as int, keys_cat(ss))
                        implies false by {
                        lemma_keys_prefix(ss, i + 1);
                        lemma_keys_step(ss, i as int);
                        lemma_bytes_at_prefix(data@, off as int, keys_cat(ss), keys_cat(ss.take(i + 1)).len() as int);
                        lemma_bytes_at_concat(data@, off as int, keys_cat(ss.take(i as int)), key_item(ss[i as int]));
                        assert(key_ok(ss[i as int]));
                    }
                }
                return Err(e);
            },
        };
        proof {
            let w = keys_views(v@).push(text_of(t));
            assert(keys_views(v@.push(t)) =~= w);
            lemma_keys_step(w, i as int);
            assert(w.take(i as int) =~= keys_views(v@));
            assert(w.take(i + 1) =~= w);
            lemma_bytes_at_concat(data@, off as int, keys_cat(keys_views(v@)), key_item(text_of(t)));
            assert forall|ss: Seq<Seq<char>>|
                ss.len() == n && keys_all_ok(ss) && #[trigger] bytes_at(data@, off as int, keys_cat(ss))
                implies w == ss.take(i + 1) by {
                lemma_keys_prefix(ss, i + 1);
                lemma_keys_step(ss, i as int);
                lemma_bytes_at_prefix(data@, off as int, keys_cat(ss), keys_cat(ss.take(i + 1)).len() as int);
                lemma_bytes_at_concat(data@, off as int, keys_cat(ss.take(i as int)), key_item(ss[i as int]));
                assert(key_ok(ss[i as int]));
                assert(ss.take(i + 1) =~= ss.take(i as int).push(ss[i as int]));
            }
            assert forall|j: int| 0 <= j < i + 1 implies key_ok(#[trigger] w[j]) by {
                if j < i {
                    assert(w[j] == keys_views(v@)[j]);
                }
            }
        }
        v.push(t);
        o = o2;
        i += 1;
    }
    proof {
        if n == 0 {
            assert forall|ss: Seq<Seq<char>>|
                ss.len() == n && keys_all_ok(ss) && #[trigger] bytes_at(data@, off as int, keys_cat(ss))
                implies keys_views(v@) == ss by {
                assert(ss =~= Seq::<Seq<char>>::empty());
            }
        } else {
            assert forall|ss: Seq<Seq<char>>|
                ss.len() == n && keys_all_ok(ss) && #[trigger] bytes_at(data@, off as int, keys_cat(ss))
                implies keys_views(v@) == ss by {
                assert(ss.take(n as int) =~= ss);
            }
        }
    }
    Ok((v, o))
}

fn read_dims_list(data: &[u8], off: usize, n: usize) -> (r: Result<(Vec<usize>, usize), &'static str>)
    requires
        off <= data@.len(),
    ensures
        r matches Ok((v, o2)) ==> v@.len() == n && dims_all_ok(dims_views(v@)) && bytes_at(
            data@,
            off as int,
            dims_cat(dims_views(v@)),
        ) && o2 == off + dims_cat(dims_views(v@)).len(),
        forall|ss: Seq<usize>|
            ss.len() == n && dims_all_ok(ss) && #[trigger] bytes_at(data@, off as int, dims_cat(ss))
                ==> (r matches Ok((v, o2)) && dims_views(v@) == ss && o2 == off + dims_cat(ss).len()),
{
    let dlen = data.len();
    assert(dlen == data@.len());
    let mut v: Vec<usize> = Vec::new();
    let mut o = off;
    let mut i: usize = 0;
    proof {
        assert(dims_views(v@) =~= Seq::<usize>::empty());
        assert(dims_cat(Seq::<usize>::empty()) =~= Seq::<u8>::empty());
        assert(data@.subrange(off as int, off as int) =~= Seq::<u8>::empty());
    }
    while i < n
        invariant
            0 <= i <= n,
            v@.len() == i,
            o == off + dims_cat(dims_views(v@)).len(),
            off <= data@.len(),
            bytes_at(data@, off as int, dims_cat(dims_views(v@))),
            dims_all_ok(dims_views(v@)),
            forall|ss: Seq<usize>|
                ss.len() == n && dims_all_ok(ss) && #[trigger] bytes_at(data@, off as int, dims_cat(ss))
                    ==> dims_views(v@) == ss.take(i as int),
        decreases n - i,
    {
        let (t, o2) = match read_dim(data, o) {
            Ok(x) => x,
            Err(e) => {
                proof {
                    assert forall|ss: Seq<usize>|
                        ss.len() == n && dims_all_ok(ss) && #[trigger] bytes_at(data@, off as int, dims_cat(ss))
                        implies false by {
                        lemma_dims_prefix(ss, i + 1);
                        lemma_dims_step(ss, i as int);
                        lemma_bytes_at_prefix(data@, off as int, dims_cat(ss), dims_cat(ss.take(i + 1)).len() as int);
                        lemma_bytes_at_concat(data@, off as int, dims_cat(ss.take(i as int)), dim_item(ss[i as int]));
                        assert(dim_ok(ss[i as int]));
                    }
                }
                return Err(e);
            },
        };
        proof {
            let w = dims_views(v@).push(same_usize(t));
            assert(dims_views(v@.push(t)) =~= w);
            lemma_dims_step(w, i as int);
            assert(w.take(i as int) =~= dims_views(v@));
            assert(w.take(i + 1) =~= w);
            lemma_bytes_at_concat(data@, off as int, dims_cat(dims_views(v@)), dim_item(same_usize(t)));
            assert forall|ss: Seq<usize>|
                ss.len() == n && dims_all_ok(ss) && #[trigger] bytes_at(data@, off as int, dims_cat(ss))
                implies w == ss.take(i + 1) by {
                lemma_dims_prefix(ss, i + 1);
                lemma_dims_step(ss, i as int);
                lemma_bytes_at_prefix(data@, off as int, dims_cat(ss), dims_cat(ss.take(i + 1)).len() as int);
                lemma_bytes_at_concat(data@, off as int, dims_cat(ss.take(i as int)), dim_item(ss[i as int]));
                assert(dim_ok(ss[i as int]));
                assert(ss.take(i + 1) =~= ss.take(i as int).push(ss[i as int]));
            }
            assert forall|j: int| 0 <= j < i + 1 implies dim_ok(#[trigger] w[j]) by {
                if j < i {
                    assert(w[j] == dims_views(v@)[j]);
                }
            }
        }
        v.push(t);
        o = o2;
        i += 1;
    }
    proof {
        if n == 0 {
            assert forall|ss: Seq<usize>|
                ss.len() == n && dims_all_ok(ss) && #[trigger] bytes_at(data@, off as int, dims_cat(ss))
                implies dims_views(v@) == ss by {
                assert(ss =~= Seq::<usize>::empty());
            }
        } else {
            assert forall|ss: Seq<usize>|
                ss.len() == n && dims_all_ok(ss) && #[trigger] bytes_at(data@, off as int, dims_cat(ss))
                implies dims_views(v@) == ss by {
                assert(ss.take(n as int) =~= ss);
            }
        }
    }
    Ok((v, o))
}

fn read_counts_list(data: &[u8], off: usize, n: usize) -> (r: Result<(Vec<(usize, u64)>, usize), &'static str>)
    requires
        off <= data@.len(),
    ensures
        r matches Ok((v, o2)) ==> v@.len() == n && counts_all_ok(counts_views(v@)) && bytes_at(
            data@,
            off as int,
            counts_cat(counts_views(v@)),
        ) && o2 == off + counts_cat(counts_views(v@)).len(),
        forall|ss: Seq<(usize, u64)>|
            ss.len() == n && counts_all_ok(ss) && #[trigger] bytes_at(data@, off as int, counts_cat(ss))
                ==> (r matches Ok((v, o2)) && counts_views(v@) == ss && o2 == off + counts_cat(ss).len()),
{
    let dlen = data.len();
    assert(dlen == data@.len());
    let mut v: Vec<(usize, u64)> = Vec::new();
    let mut o = off;
    let mut i: usize = 0;
    proof {
        assert(counts_views(v@) =~= Seq::<(usize, u64)>::empty());
        assert(counts_cat(Seq::<(usize, u64)>::empty()) =~= Seq::<u8>::empty());
        assert(data@.subrange(off as int, off as int) =~= Seq::<u8>::empty());
    }
    while i < n
        invariant
            0 <= i <= n,
            v@.len() == i,
            o == off + counts_cat(counts_views(v@)).len(),
            off <= data@.len(),
            bytes_at(data@, off as int, counts_cat(counts_views(v@))),
            counts_all_ok(counts_views(v@)),
            forall|ss: Seq<(usize, u64)>|
                ss.len() == n && counts_all_ok(ss) && #[trigger] bytes_at(data@, off as int, counts_cat(ss))
                    ==> counts_views(v@) == ss.take(i as int),
        decreases n - i,
    {
        let (t, o2) = match read_count(data, o) {
            Ok(x) => x,
            Err(e) => {
                proof {
                    assert forall|ss: Seq<(usize, u64)>|
                        ss.len() == n && counts_all_ok(ss) && #[trigger] bytes_at(data@, off as int, counts_cat(ss))
                        implies false by {
                        lemma_counts_prefix(ss, i + 1);
                        lemma_counts_step(ss, i as int);
                        lemma_bytes_at_prefix(data@, off as int, counts_cat(ss), counts_cat(ss.take(i + 1)).len() as int);
                        lemma_bytes_at_concat(data@, off as int, counts_cat(ss.take(i as int)), count_item(ss[i as int]));
                        assert(count_ok(ss[i as int]));
                    }
                }
                return Err(e);
            },
        };
        proof {
            let w = counts_views(v@).push(same_count(t));
            assert(counts_views(v@.push(t)) =~= w);
            lemma_counts_step(w, i as int);
            assert(w.take(i as int) =~= counts_views(v@));
            assert(w.take(i + 1) =~= w);
            lemma_bytes_at_concat(data@, off as int, counts_cat(counts_views(v@)), count_item(same_count(t)));
            assert forall|ss: Seq<(usize, u64)>|
                ss.len() == n && counts_all_ok(ss) && #[trigger] bytes_at(data@, off as int, counts_cat(ss))
                implies w == ss.take(i + 1) by {
                lemma_counts_prefix(ss, i + 1);
                lemma_counts_step(ss, i as int);
                lemma_bytes_at_prefix(data@, off as int, counts_cat(ss), counts_cat(ss.take(i + 1)).len() as int);
                lemma_bytes_at_concat(data@, off as int, counts_cat(ss.take(i as int)), count_item(ss[i as int]));
                assert(count_ok(ss[i as int]));
                assert(ss.take(i + 1) =~= ss.take(i as int).push(ss[i as int]));
            }
            assert forall|j: int| 0 <= j < i + 1 implies count_ok(#[trigger] w[j]) by {
                if j < i {
                    assert(w[j] == counts_views(v@)[j]);
                }
            }
        }
        v.push(t);
        o = o2;
        i += 1;
    }
    proof {
        if n == 0 {
            assert forall|ss: Seq<(usize, u64)>|
                ss.len() == n && counts_all_ok(ss) && #[trigger] bytes_at(data@, off as int, counts_cat(ss))
                implies counts_views(v@) == ss by {
                assert(ss =~= Seq::<(usize, u64)>::empty());
            }
        } else {
            assert forall|ss: Seq<(usize, u64)>|
                ss.len() == n && counts_all_ok(ss) && #[trigger] bytes_at(data@, off as int, counts_cat(ss))
                implies counts_views(v@) == ss by {
                assert(ss.take(n as int) =~= ss);
            }
        }
    }
    Ok((v, o))
}

fn read_words_list(data: &[u8], off: usize, n: usize) -> (r: Result<(Vec<u64>, usize), &'static str>)
    requires
        off <= data@.len(),
    ensures
        r matches Ok((v, o2)) ==> v@.len() == n && words_all_ok(words_views(v@)) && bytes_at(
            data@,
            off as int,
            words_cat(words_views(v@)),
        ) && o2 == off + words_cat(words_views(v@)).len(),
        forall|ss: Seq<u64>|
            ss.len() == n && words_all_ok(ss) && #[trigger] bytes_at(data@, off as int, words_cat(ss))
                ==> (r matches Ok((v, o2)) && words_views(v@) == ss && o2 == off + words_cat(ss).len()),
{
    let dlen = data.len();
    assert(dlen == data@.len());
    let mut v: Vec<u64> = Vec::new();
    let mut o = off;
    let mut i: usize = 0;
    proof {
        assert(words_views(v@) =~= Seq::<u64>::empty());
        assert(words_cat(Seq::<u64>::empty()) =~= Seq::<u8>::empty());
        assert(data@.subrange(off as int, off as int) =~= Seq::<u8>::empty());
    }
    while i < n
        invariant
            0 <= i <= n,
            v@.len() == i,
            o == off + words_cat(words_views(v@)).len(),
            off <= data@.len(),
            bytes_at(data@, off as int, words_cat(words_views(v@))),
            words_all_ok(words_views(v@)),
            forall|ss: Seq<u64>|
                ss.len() == n && words_all_ok(ss) && #[trigger] bytes_at(data@, off as int, words_cat(ss))
                    ==> words_views(v@) == ss.take(i as int),
        decreases n - i,
    {
        let (t, o2) = match read_word(data, o) {
            Ok(x) => x,
            Err(e) => {
                proof {
                    assert forall|ss: Seq<u64>|
                        ss.len() == n && words_all_ok(ss) && #[trigger] bytes_at(data@, off as int, words_cat(ss))
                        implies false by {
                        lemma_words_prefix(ss, i + 1);
                        lemma_words_step(ss, i as int);
                        lemma_bytes_at_prefix(data@, off as int, words_cat(ss), words_cat(ss.take(i + 1)).len() as int);
                        lemma_bytes_at_concat(data@, off as int, words_cat(ss.take(i as int)), word_item(ss[i as int]));
                        assert(word_ok(ss[i as int]));
                    }
                }
                return Err(e);
            },
        };
        proof {
            let w = words_views(v@).push(same_word(t));
            assert(words_views(v@.push(t)) =~= w);
            lemma_words_step(w, i as int);
            assert(w.take(i as int) =~= words_views(v@));
            assert(w.take(i + 1) =~= w);
            lemma_bytes_at_concat(data@, off as int, words_cat(words_views(v@)), word_item(same_word(t)));
            assert forall|ss: Seq<u64>|
                ss.len() == n && words_all_ok(ss) && #[trigger] bytes_at(data@, off as int, words_cat(ss))
                implies w == ss.take(i + 1) by {
                lemma_words_prefix(ss, i + 1);
                lemma_words_step(ss, i as int);
                lemma_bytes_at_prefix(data@, off as int, words_cat(ss), words_cat(ss.take(i + 1)).len() as int);
                lemma_bytes_at_concat(data@, off as int, words_cat(ss.take(i as int)), word_item(ss[i as int]));
                assert(word_ok(ss[i as int]));
                assert(ss.take(i + 1) =~= ss.take(i as int).push(ss[i as int]));
            }
            assert forall|j: int| 0 <= j < i + 1 implies word_ok(#[trigger] w[j]) by {
                if j < i {
                    assert(w[j] == words_views(v@)[j]);
                }
            }
        }
        v.push(t);
        o = o2;
        i += 1;
    }
    proof {
        if n == 0 {
            assert forall|ss: Seq<u64>|
                ss.len() == n && words_all_ok(ss) && #[trigger] bytes_at(data@, off as int, words_cat(ss))
                implies words_views(v@) == ss by {
                assert(ss =~= Seq::<u64>::empty());
            }
        } else {
            assert forall|ss: Seq<u64>|
                ss.len() == n && words_all_ok(ss) && #[trigger] bytes_at(data@, off as int, words_cat(ss))
                implies words_views(v@) == ss by {
                assert(ss.take(n as int) =~= ss);
            }
        }
    }
    Ok((v, o))
}

fn read_ent(data: &[u8], off: usize) -> (r: Result<((String, Vec<String>), usize), &'static str>)
    requires
        off <= data@.len(),
    ensures
        r matches Ok((x, o2)) ==> ent_ok(ent_view(x)) && bytes_at(data@, off as int, ent_item(ent_view(x))) && o2
            == off + ent_item(ent_view(x)).len(),
        forall|y: (Seq<char>, Seq<Seq<char>>)|
            ent_ok(y) && #[trigger] bytes_at(data@, off as int, ent_item(y)) ==> (r matches Ok((x, o2)) && ent_view(x)
                == y && o2 == off + ent_item(y).len()),
{
    let dlen = data.len();
    assert(dlen == data@.len());
    proof {
        lemma_le_bytes_roundtrip();
    }
    let (name, o1) = match read_str16(data, off) {
        Ok(x) => x,
        Err(e) => {
            proof {
                assert forall|y: (Seq<char>, Seq<Seq<char>>)| ent_ok(y) && #[trigger] bytes_at(data@, off as int, ent_item(y)) implies false by {
                    lemma_three(data@, off as int, str16_wire(y.0), spec_u32_to_le_bytes(y.1.len() as u32), keys_cat(y.1));
                }
            }
            return Err(ent_err(e));
        },
    };
    proof {
        assert forall|y: (Seq<char>, Seq<Seq<char>>)| ent_ok(y) && #[trigger] bytes_at(data@, off as int, ent_item(y)) implies y.0
            == name@ && bytes_at(data@, o1 as int, spec_u32_to_le_bytes(y.1.len() as u32) + keys_cat(y.1)) by {
            lemma_three(data@, off as int, str16_wire(y.0), spec_u32_to_le_bytes(y.1.len() as u32), keys_cat(y.1));
            lemma_bytes_at_concat(data@, o1 as int, spec_u32_to_le_bytes(y.1.len() as u32), keys_cat(y.1));
        }
    }
    let n = match rd_u32(data, o1) {
        Some(x) => x as usize,
        None => {
            proof {
                assert forall|y: (Seq<char>, Seq<Seq<char>>)| ent_ok(y) && #[trigger] bytes_at(data@, off as int, ent_item(y)) implies false by {
                    lemma_sec_head(data@, o1 as int, y.1.len() as u32, keys_cat(y.1));
                }
            }
            return Err("trunc nsk");
        },
    };
    proof {
        assert forall|y: (Seq<char>, Seq<Seq<char>>)| ent_ok(y) && #[trigger] bytes_at(data@, off as int, ent_item(y)) implies y.1.len()
            == n && bytes_at(data@, o1 + 4, keys_cat(y.1)) by {
            lemma_sec_head(data@, o1 as int, y.1.len() as u32, keys_cat(y.1));
        }
    }
    let (ks, o2) = match read_skeys_list(data, o1 + 4, n) {
        Ok(x) => x,
        Err(e) => {
            return Err(e);
        },
    };
    proof {
        lemma_sec_head(data@, o1 as int, n as u32, keys_cat(keys_views(ks@)));
        lemma_bytes_at_concat(data@, o1 as int, spec_u32_to_le_bytes(n as u32), keys_cat(keys_views(ks@)));
        lemma_three(data@, off as int, str16_wire(name@), spec_u32_to_le_bytes(n as u32), keys_cat(keys_views(ks@)));
    }
    Ok(((name, ks), o2))
}

fn read_pdoc(data: &[u8], off: usize) -> (r: Result<((String, u32, bool), usize), &'static str>)
    requires
        off <= data@.len(),
    ensures
        r matches Ok((x, o2)) ==> pdoc_ok(pdoc_view(x)) && bytes_at(data@, off as int, pdoc_item(pdoc_view(x))) && o2
            == off + pdoc_item(pdoc_view(x)).len(),
        forall|y: (Seq<char>, u32, bool)|
            pdoc_ok(y) && #[trigger] bytes_at(data@, off as int, pdoc_item(y)) ==> (r matches Ok((x, o2)) && pdoc_view(x)
                == y && o2 == off + pdoc_item(y).len()),
{
    let dlen = data.len();
    assert(dlen == data@.len());
    proof {
        lemma_le_bytes_roundtrip();
    }
    let (doc, o1) = match read_str16(data, off) {
        Ok(x) => x,
        Err(e) => {
            proof {
                assert forall|y: (Seq<char>, u32, bool)| pdoc_ok(y) && #[trigger] bytes_at(data@, off as int, pdoc_item(y)) implies false by {
                    lemma_bytes_at_concat(data@, off as int, str16_wire(y.0), tf_wire(y.1, y.2));
                }
            }
            return Err(ldoc_err(e));
        },
    };
    proof {
        assert forall|y: (Seq<char>, u32, bool)| pdoc_ok(y) && #[trigger] bytes_at(data@, off as int, pdoc_item(y)) implies y.0
            == doc@ && bytes_at(data@, o1 as int, tf_wire(y.1, y.2)) by {
            lemma_bytes_at_concat(data@, off as int, str16_wire(y.0), tf_wire(y.1, y.2));
        }
    }
    if o1 >= data.len() {
        proof {
            assert forall|y: (Seq<char>, u32, bool)| pdoc_ok(y) && #[trigger] bytes_at(data@, off as int, pdoc_item(y)) implies false by {
                assert(bytes_at(data@, o1 as int, tf_wire(y.1, y.2)));
            }
        }
        return Err("trunc tf");
    }
    let b = data[o1];
    if b == 255 {
        match rd_u32(data, o1 + 1) {
            Some(full) => {
                proof {
                    assert(spec_u32_to_le_bytes(spec_u32_from_le_bytes(data@.subrange(o1 + 1, o1 + 5)))
                        == data@.subrange(o1 + 1, o1 + 5));
                    assert(data@.subrange(o1 as int, o1 + 5) =~= seq![255u8] + spec_u32_to_le_bytes(full));
                    lemma_bytes_at_concat(data@, off as int, str16_wire(doc@), tf_wire(full, true));
                    assert forall|y: (Seq<char>, u32, bool)| pdoc_ok(y) && #[trigger] bytes_at(data@, off as int, pdoc_item(y)) implies y
                        == (doc@, full, true) by {
                        assert(bytes_at(data@, o1 as int, tf_wire(y.1, y.2)));
                        assert(data@.subrange(o1 as int, o1 + tf_wire(y.1, y.2).len())[0] == data@[o1 as int]);
                        if y.2 {
                            assert(data@.subrange(o1 + 1, o1 + 5) =~= data@.subrange(o1 as int, o1 + 5).subrange(1, 5));
                            assert(tf_wire(y.1, y.2).subrange(1, 5) =~= spec_u32_to_le_bytes(y.1));
                        } else {
                            assert(tf_wire(y.1, y.2)[0] == y.1 as u8);
                        }
                    }
                }
                Ok(((doc, full, true), o1 + 5))
            },
            None => {
                proof {
                    assert forall|y: (Seq<char>, u32, bool)| pdoc_ok(y) && #[trigger] bytes_at(data@, off as int, pdoc_item(y)) implies false by {
                        assert(bytes_at(data@, o1 as int, tf_wire(y.1, y.2)));
                        assert(data@.subrange(o1 as int, o1 + tf_wire(y.1, y.2).len())[0] == data@[o1 as int]);
                        if !y.2 {
                            assert(tf_wire(y.1, y.2)[0] == y.1 as u8);
                        }
                    }
                }
                Err("trunc tf_full")
            },
        }
    } else {
        proof {
            assert(data@.subrange(o1 as int, o1 + 1) =~= seq![b]);
            assert(tf_wire(b as u32, false) =~= seq![b]);
            lemma_bytes_at_concat(data@, off as int, str16_wire(doc@), tf_wire(b as u32, false));
            assert forall|y: (Seq<char>, u32, bool)| pdoc_ok(y) && #[trigger] bytes_at(data@, off as int, pdoc_item(y)) implies y
                == (doc@, b as u32, false) by {
                assert(bytes_at(data@, o1 as int, tf_wire(y.1, y.2)));
                assert(data@.subrange(o1 as int, o1 + tf_wire(y.1, y.2).len())[0] == data@[o1 as int]);
                if y.2 {
                    assert(tf_wire(y.1, y.2)[0] == 255u8);
                } else {
                    assert(tf_wire(y.1, y.2)[0] == y.1 as u8);
                    assert(y.1 < 255);
                }
            }
        }
        Ok(((doc, b as u32, false), o1 + 1))
    }
}

fn read_pdocs_list(data: &[u8], off: usize, n: usize) -> (r: Result<(Vec<(String, u32, bool)>, usize), &'static str>)
    requires
        off <= data@.len(),
    ensures
        r matches Ok((v, o2)) ==> v@.len() == n && pdocs_all_ok(pdocs_views(v@)) && bytes_at(
            data@,
            off as int,
            pdocs_cat(pdocs_views(v@)),
        ) && o2 == off + pdocs_cat(pdocs_views(v@)).len(),
        forall|ss: Seq<(Seq<char>, u32, bool)>|
            ss.len() == n && pdocs_all_ok(ss) && #[trigger] bytes_at(data@, off as int, pdocs_cat(ss))
                ==> (r matches Ok((v, o2)) && pdocs_views(v@) == ss && o2 == off + pdocs_cat(ss).len()),
{
    let dlen = data.len();
    assert(dlen == data@.len());
    let mut v: Vec<(String, u32, bool)> = Vec::new();
    let mut o = off;
    let mut i: usize = 0;
    proof {
        assert(pdocs_views(v@) =~= Seq::<(Seq<char>, u32, bool)>::empty());
        assert(pdocs_cat(Seq::<(Seq<char>, u32, bool)>::empty()) =~= Seq::<u8>::empty());
        assert(data@.subrange(off as int, off as int) =~= Seq::<u8>::empty());
    }
    while i < n
        invariant
            0 <= i <= n,
            v@.len() == i,
            o == off + pdocs_cat(pdocs_views(v@)).len(),
            off <= data@.len(),
            bytes_at(data@, off as int, pdocs_cat(pdocs_views(v@))),
            pdocs_all_ok(pdocs_views(v@)),
            forall|ss: Seq<(Seq<char>, u32, bool)>|
                ss.len() == n && pdocs_all_ok(ss) && #[trigger] bytes_at(data@, off as int, pdocs_cat(ss))
                    ==> pdocs_views(v@) == ss.take(i as int),
        decreases n - i,
    {
        let (t, o2) = match read_pdoc(data, o) {
            Ok(x) => x,
            Err(e) => {
                proof {
                    assert forall|ss: Seq<(Seq<char>, u32, bool)>|
                        ss.len() == n && pdocs_all_ok(ss) && #[trigger] bytes_at(data@, off as int, pdocs_cat(ss))
                        implies false by {
                        lemma_pdocs_prefix(ss, i + 1);
                        lemma_pdocs_step(ss, i as int);
                        lemma_bytes_at_prefix(data@, off as int, pdocs_cat(ss), pdocs_cat(ss.take(i + 1)).len() as int);
                        lemma_bytes_at_concat(data@, off as int, pdocs_cat(ss.take(i as int)), pdoc_item(ss[i as int]));
                        assert(pdoc_ok(ss[i as int]));
                    }
                }
                return Err(e);
            },
        };
        proof {
            let w = pdocs_views(v@).push(pdoc_view(t));
            assert(pdocs_views(v@.push(t)) =~= w);
            lemma_pdocs_step(w, i as int);
            assert(w.take(i as int) =~= pdocs_views(v@));
            assert(w.take(i + 1) =~= w);
            lemma_bytes_at_concat(data@, off as int, pdocs_cat(pdocs_views(v@)), pdoc_item(pdoc_view(t)));
            assert forall|ss: Seq<(Seq<char>, u32, bool)>|
                ss.len() == n && pdocs_all_ok(ss) && #[trigger] bytes_at(data@, off as int, pdocs_cat(ss))
                implies w == ss.take(i + 1) by {
                lemma_pdocs_prefix(ss, i + 1);
                lemma_pdocs_step(ss, i as int);
                lemma_bytes_at_prefix(data@, off as int, pdocs_cat(ss), pdocs_cat(ss.take(i + 1)).len() as int);
                lemma_bytes_at_concat(data@, off as int, pdocs_cat(ss.take(i as int)), pdoc_item(ss[i as int]));
                assert(pdoc_ok(ss[i as int]));
                assert(ss.take(i + 1) =~= ss.take(i as int).push(ss[i as int]));
            }
            assert forall|j: int| 0 <= j < i + 1 implies pdoc_ok(#[trigger] w[j]) by {
                if j < i {
                    assert(w[j] == pdocs_views(v@)[j]);
                }
            }
        }
        v.push(t);
        o = o2;
        i += 1;
    }
    proof {
        if n == 0 {
            assert forall|ss: Seq<(Seq<char>, u32, bool)>|
                ss.len() == n && pdocs_all_ok(ss) && #[trigger] bytes_at(data@, off as int, pdocs_cat(ss))
                implies pdocs_views(v@) == ss by {
                assert(ss =~= Seq::<(Seq<char>, u32, bool)>::empty());
            }
        } else {
            assert forall|ss: Seq<(Seq<char>, u32, bool)>|
                ss.len() == n && pdocs_all_ok(ss) && #[trigger] bytes_at(data@, off as int, pdocs_cat(ss))
                implies pdocs_views(v@) == ss by {
                assert(ss.take(n as int) =~= ss);
            }
        }
    }
    Ok((v, o))
}

fn read_term(data: &[u8], off: usize) -> (r: Result<((String, Vec<(String, u32, bool)>), usize), &'static str>)
    requires
        off <= data@.len(),
    ensures
        r matches Ok((x, o2)) ==> term_ok(term_view(x)) && bytes_at(data@, off as int, term_item(term_view(x))) && o2
            == off + term_item(term_view(x)).len(),
        forall|y: (Seq<char>, Seq<(Seq<char>, u32, bool)>)|
            term_ok(y) && #[trigger] bytes_at(data@, off as int, term_item(y)) ==> (r matches Ok((x, o2)) && term_view(x)
                == y && o2 == off + term_item(y).len()),
{
    let dlen = data.len();
    assert(dlen == data@.len());
    proof {
        lemma_le_bytes_roundtrip();
    }
    let (name, o1) = match read_str16(data, off) {
        Ok(x) => x,
        Err(e) => {
            proof {
                assert forall|y: (Seq<char>, Seq<(Seq<char>, u32, bool)>)| term_ok(y) && #[trigger] bytes_at(data@, off as int, term_item(y)) implies false by {
                    lemma_three(data@, off as int, str16_wire(y.0), spec_u32_to_le_bytes(y.1.len() as u32), pdocs_cat(y.1));
                }
            }
            return Err(term_err(e));
        },
    };
    proof {
        assert forall|y: (Seq<char>, Seq<(Seq<char>, u32, bool)>)| term_ok(y) && #[trigger] bytes_at(data@, off as int, term_item(y)) implies y.0
            == name@ && bytes_at(data@, o1 as int, spec_u32_to_le_bytes(y.1.len() as u32) + pdocs_cat(y.1)) by {
            lemma_three(data@, off as int, str16_wire(y.0), spec_u32_to_le_bytes(y.1.len() as u32), pdocs_cat(y.1));
            lemma_bytes_at_concat(data@, o1 as int, spec_u32_to_le_bytes(y.1.len() as u32), pdocs_cat(y.1));
        }
    }
    let n = match rd_u32(data, o1) {
        Some(x) => x as usize,
        None => {
            proof {
                assert forall|y: (Seq<char>, Seq<(Seq<char>, u32, bool)>)| term_ok(y) && #[trigger] bytes_at(data@, off as int, term_item(y)) implies false by {
                    lemma_sec_head(data@, o1 as int, y.1.len() as u32, pdocs_cat(y.1));
                }
            }
            return Err("trunc ndocs");
        },
    };
    proof {
        assert forall|y: (Seq<char>, Seq<(Seq<char>, u32, bool)>)| term_ok(y) && #[trigger] bytes_at(data@, off as int, term_item(y)) implies y.1.len()
            == n && bytes_at(data@, o1 + 4, pdocs_cat(y.1)) by {
            lemma_sec_head(data@, o1 as int, y.1.len() as u32, pdocs_cat(y.1));
        }
    }
    let (ds, o2) = match read_pdocs_list(data, o1 + 4, n) {
        Ok(x) => x,
        Err(e) => {
            return Err(e);
        },
    };
    proof {
        lemma_sec_head(data@, o1 as int, n as u32, pdocs_cat(pdocs_views(ds@)));
        lemma_bytes_at_concat(data@, o1 as int, spec_u32_to_le_bytes(n as u32), pdocs_cat(pdocs_views(ds@)));
        lemma_three(data@, off as int, str16_wire(name@), spec_u32_to_le_bytes(n as u32), pdocs_cat(pdocs_views(ds@)));
    }
    Ok(((name, ds), o2))
}

fn read_doclen(data: &[u8], off: usize) -> (r: Result<((String, u32), usize), &'static str>)
    requires
        off <= data@.len(),
    ensures
        r matches Ok((x, o2)) ==> doclen_ok(doclen_view(x)) && bytes_at(data@, off as int, doclen_item(doclen_view(x))) && o2
            == off + doclen_item(doclen_view(x)).len(),
        forall|y: (Seq<char>, u32)|
            doclen_ok(y) && #[trigger] bytes_at(data@, off as int, doclen_item(y)) ==> (r matches Ok((x, o2)) && doclen_view(x)
                == y && o2 == off + doclen_item(y).len()),
{
    let dlen = data.len();
    assert(dlen == data@.len());
    proof {
        lemma_le_bytes_roundtrip();
    }
    let (doc, o1) = match read_str16(data, off) {
        Ok(x) => x,
        Err(e) => {
            proof {
                assert forall|y: (Seq<char>, u32)| doclen_ok(y) && #[trigger] bytes_at(data@, off as int, doclen_item(y)) implies false by {
                    lemma_bytes_at_concat(data@, off as int, str16_wire(y.0), spec_u32_to_le_bytes(y.1));
                }
            }
            return Err(dl_err(e));
        },
    };
    let l = match rd_u32(data, o1) {
        Some(x) => x,
        None => {
            proof {
                assert forall|y: (Seq<char>, u32)| doclen_ok(y) && #[trigger] bytes_at(data@, off as int, doclen_item(y)) implies false by {
                    lemma_bytes_at_concat(data@, off as int, str16_wire(y.0), spec_u32_to_le_bytes(y.1));
                }
            }
            return Err("trunc doclen");
        },
    };
    proof {
        assert(spec_u32_to_le_bytes(spec_u32_from_le_bytes(data@.subrange(o1 as int, o1 + 4)))
            == data@.subrange(o1 as int, o1 + 4));
        lemma_bytes_at_concat(data@, off as int, str16_wire(doc@), spec_u32_to_le_bytes(l));
        assert forall|y: (Seq<char>, u32)| doclen_ok(y) && #[trigger] bytes_at(data@, off as int, doclen_item(y)) implies y
            == (doc@, l) by {
            lemma_bytes_at_concat(data@, off as int, str16_wire(y.0), spec_u32_to_le_bytes(y.1));
        }
    }
    Ok(((doc, l), o1 + 4))
}

fn read_bq(data: &[u8], off: usize) -> (r: Result<((String, Vec<u64>), usize), &'static str>)
    requires
        off <= data@.len(),
    ensures
        r matches Ok((x, o2)) ==> bq_ok(bq_view(x)) && bytes_at(data@, off as int, bq_item(bq_view(x))) && o2
            == off + bq_item(bq_view(x)).len(),
        forall|y: (Seq<char>, Seq<u64>)|
            bq_ok(y) && #[trigger] bytes_at(data@, off as int, bq_item(y)) ==> (r matches Ok((x, o2)) && bq_view(x)
                == y && o2 == off + bq_item(y).len()),
{
    let dlen = data.len();
    assert(dlen == data@.len());
    proof {
        lemma_le_bytes_roundtrip();
    }
    let (sk, o1) = match read_bqkey(data, off) {
        Ok(x) => x,
        Err(e) => {
            proof {
                assert forall|y: (Seq<char>, Seq<u64>)| bq_ok(y) && #[trigger] bytes_at(data@, off as int, bq_item(y)) implies false by {
                    lemma_three(data@, off as int, str16_wire(y.0), spec_u16_to_le_bytes(y.1.len() as u16), words_cat(y.1));
                    assert(key_ok(y.0));
                    assert(bytes_at(data@, off as int, key_item(y.0)));
                }
            }
            return Err(e);
        },
    };
    proof {
        assert forall|y: (Seq<char>, Seq<u64>)| bq_ok(y) && #[trigger] bytes_at(data@, off as int, bq_item(y)) implies y.0
            == sk@ && bytes_at(data@, o1 as int, spec_u16_to_le_bytes(y.1.len() as u16)) && bytes_at(
            data@,
            o1 + 2,
            words_cat(y.1),
        ) by {
            lemma_three(data@, off as int, str16_wire(y.0), spec_u16_to_le_bytes(y.1.len() as u16), words_cat(y.1));
            assert(key_ok(y.0));
            assert(bytes_at(data@, off as int, key_item(y.0)));
        }
    }
    let nw = match rd_u16(data, o1) {
        Some(x) => x as usize,
        None => {
            return Err("trunc bq_nw");
        },
    };
    proof {
        assert forall|y: (Seq<char>, Seq<u64>)| bq_ok(y) && #[trigger] bytes_at(data@, off as int, bq_item(y)) implies y.1.len()
            == nw by {
            assert(bytes_at(data@, o1 as int, spec_u16_to_le_bytes(y.1.len() as u16)));
            assert(data@.subrange(o1 as int, o1 + 2) == spec_u16_to_le_bytes(y.1.len() as u16));
        }
    }
    if nw > MAX_SNAPSHOT_WORDS {
        return Err("bq nw over limit");
    }
    let (ws, o2) = match read_words_list(data, o1 + 2, nw) {
        Ok(x) => x,
        Err(e) => {
            return Err(e);
        },
    };
    proof {
        assert(spec_u16_to_le_bytes(spec_u16_from_le_bytes(data@.subrange(o1 as int, o1 + 2)))
            == data@.subrange(o1 as int, o1 + 2));
        assert(ws@.len() == nw);
        assert(words_views(ws@) =~= ws@);
        lemma_three(data@, off as int, str16_wire(sk@), spec_u16_to_le_bytes(nw as u16), words_cat(ws@));
    }
    Ok(((sk, ws), o2))
}

fn read_ents_list(data: &[u8], off: usize, n: usize) -> (r: Result<(Vec<(String, Vec<String>)>, usize), &'static str>)
    requires
        off <= data@.len(),
    ensures
        r matches Ok((v, o2)) ==> v@.len() == n && ents_all_ok(ents_views(v@)) && bytes_at(
            data@,
            off as int,
            ents_cat(ents_views(v@)),
        ) && o2 == off + ents_cat(ents_views(v@)).len(),
        forall|ss: Seq<(Seq<char>, Seq<Seq<char>>)>|
            ss.len() == n && ents_all_ok(ss) && #[trigger] bytes_at(data@, off as int, ents_cat(ss))
                ==> (r matches Ok((v, o2)) && ents_views(v@) == ss && o2 == off + ents_cat(ss).len()),
{
    let dlen = data.len();
    assert(dlen == data@.len());
    let mut v: Vec<(String, Vec<String>)> = Vec::new();
    let mut o = off;
    let mut i: usize = 0;
    proof {
        assert(ents_views(v@) =~= Seq::<(Seq<char>, Seq<Seq<char>>)>::empty());
        assert(ents_cat(Seq::<(Seq<char>, Seq<Seq<char>>)>::empty()) =~= Seq::<u8>::empty());
        assert(data@.subrange(off as int, off as int) =~= Seq::<u8>::empty());
    }
    while i < n
        invariant
            0 <= i <= n,
            v@.len() == i,
            o == off + ents_cat(ents_views(v@)).len(),
            off <= data@.len(),
            bytes_at(data@, off as int, ents_cat(ents_views(v@))),
            ents_all_ok(ents_views(v@)),
            forall|ss: Seq<(Seq<char>, Seq<Seq<char>>)>|
                ss.len() == n && ents_all_ok(ss) && #[trigger] bytes_at(data@, off as int, ents_cat(ss))
                    ==> ents_views(v@) == ss.take(i as int),
        decreases n - i,
    {
        let (t, o2) = match read_ent(data, o) {
            Ok(x) => x,
            Err(e) => {
                proof {
                    assert forall|ss: Seq<(Seq<char>, Seq<Seq<char>>)>|
                        ss.len() == n && ents_all_ok(ss) && #[trigger] bytes_at(data@, off as int, ents_cat(ss))
                        implies false by {
                        lemma_ents_prefix(ss, i + 1);
                        lemma_ents_step(ss, i as int);
                        lemma_bytes_at_prefix(data@, off as int, ents_cat(ss), ents_cat(ss.take(i + 1)).len() as int);
                        lemma_bytes_at_concat(data@, off as int, ents_cat(ss.take(i as int)), ent_item(ss[i as int]));
                        assert(ent_ok(ss[i as int]));
                    }
                }
                return Err(e);
            },
        };
        proof {
            let w = ents_views(v@).push(ent_view(t));
            assert(ents_views(v@.push(t)) =~= w);
            lemma_ents_step(w, i as int);
            assert(w.take(i as int) =~= ents_views(v@));
            assert(w.take(i + 1) =~= w);
            lemma_bytes_at_concat(data@, off as int, ents_cat(ents_views(v@)), ent_item(ent_view(t)));
            assert forall|ss: Seq<(Seq<char>, Seq<Seq<char>>)>|
                ss.len() == n && ents_all_ok(ss) && #[trigger] bytes_at(data@, off as int, ents_cat(ss))
                implies w == ss.take(i + 1) by {
                lemma_ents_prefix(ss, i + 1);
                lemma_ents_step(ss, i as int);
                lemma_bytes_at_prefix(data@, off as int, ents_cat(ss), ents_cat(ss.take(i + 1)).len() as int);
                lemma_bytes_at_concat(data@, off as int, ents_cat(ss.take(i as int)), ent_item(ss[i as int]));
                assert(ent_ok(ss[i as int]));
                assert(ss.take(i + 1) =~= ss.take(i as int).push(ss[i as int]));
            }
            assert forall|j: int| 0 <= j < i + 1 implies ent_ok(#[trigger] w[j]) by {
                if j < i {
                    assert(w[j] == ents_views(v@)[j]);
                }
            }
        }
        v.push(t);
        o = o2;
        i += 1;
    }
    proof {
        if n == 0 {
            assert forall|ss: Seq<(Seq<char>, Seq<Seq<char>>)>|
                ss.len() == n && ents_all_ok(ss) && #[trigger] bytes_at(data@, off as int, ents_cat(ss))
                implies ents_views(v@) == ss by {
                assert(ss =~= Seq::<(Seq<char>, Seq<Seq<char>>)>::empty());
            }
        } else {
            assert forall|ss: Seq<(Seq<char>, Seq<Seq<char>>)>|
                ss.len() == n && ents_all_ok(ss) && #[trigger] bytes_at(data@, off as int, ents_cat(ss))
                implies ents_views(v@) == ss by {
                assert(ss.take(n as int) =~= ss);
            }
        }
    }
    Ok((v, o))
}

fn read_terms_list(data: &[u8], off: usize, n: usize) -> (r: Result<(Vec<(String, Vec<(String, u32, bool)>)>, usize), &'static str>)
    requires
        off <= data@.len(),
    ensures
        r matches Ok((v, o2)) ==> v@.len() == n && terms_all_ok(terms_views(v@)) && bytes_at(
            data@,
            off as int,
            terms_cat(terms_views(v@)),
        ) && o2 == off + terms_cat(terms_views(v@)).len(),
        forall|ss: Seq<(Seq<char>, Seq<(Seq<char>, u32, bool)>)>|
            ss.len() == n && terms_all_ok(ss) && #[trigger] bytes_at(data@, off as int, terms_cat(ss))
                ==> (r matches Ok((v, o2)) && terms_views(v@) == ss && o2 == off + terms_cat(ss).len()),
{
    let dlen = data.len();
    assert(dlen == data@.len());
    let mut v: Vec<(String, Vec<(String, u32, bool)>)> = Vec::new();
    let mut o = off;
    let mut i: usize = 0;
    proof {
        assert(terms_views(v@) =~= Seq::<(Seq<char>, Seq<(Seq<char>, u32, bool)>)>::empty());
        assert(terms_cat(Seq::<(Seq<char>, Seq<(Seq<char>, u32, bool)>)>::empty()) =~= Seq::<u8>::empty());
        assert(data@.subrange(off as int, off as int) =~= Seq::<u8>::empty());
    }
    while i < n
        invariant
            0 <= i <= n,
            v@.len() == i,
            o == off + terms_cat(terms_views(v@)).len(),
            off <= data@.len(),
            bytes_at(data@, off as int, terms_cat(terms_views(v@))),
            terms_all_ok(terms_views(v@)),
            forall|ss: Seq<(Seq<char>, Seq<(Seq<char>, u32, bool)>)>|
                ss.len() == n && terms_all_ok(ss) && #[trigger] bytes_at(data@, off as int, terms_cat(ss))
                    ==> terms_views(v@) == ss.take(i as int),
        decreases n - i,
    {
        let (t, o2) = match read_term(data, o) {
            Ok(x) => x,
            Err(e) => {
                proof {
                    assert forall|ss: Seq<(Seq<char>, Seq<(Seq<char>, u32, bool)>)>|
                        ss.len() == n && terms_all_ok(ss) && #[trigger] bytes_at(data@, off as int, terms_cat(ss))
                        implies false by {
                        lemma_terms_prefix(ss, i + 1);
                        lemma_terms_step(ss, i as int);
                        lemma_bytes_at_prefix(data@, off as int, terms_cat(ss), terms_cat(ss.take(i + 1)).len() as int);
                        lemma_bytes_at_concat(data@, off as int, terms_cat(ss.take(i as int)), term_item(ss[i as int]));
                        assert(term_ok(ss[i as int]));
                    }
                }
                return Err(e);
            },
        };
        proof {
            let w = terms_views(v@).push(term_view(t));
            assert(terms_views(v@.push(t)) =~= w);
            lemma_terms_step(w, i as int);
            assert(w.take(i as int) =~= terms_views(v@));
            assert(w.take(i + 1) =~= w);
            lemma_bytes_at_concat(data@, off as int, terms_cat(terms_views(v@)), term_item(term_view(t)));
            assert forall|ss: Seq<(Seq<char>, Seq<(Seq<char>, u32, bool)>)>|
                ss.len() == n && terms_all_ok(ss) && #[trigger] bytes_at(data@, off as int, terms_cat(ss))
                implies w == ss.take(i + 1) by {
                lemma_terms_prefix(ss, i + 1);
                lemma_terms_step(ss, i as int);
                lemma_bytes_at_prefix(data@, off as int, terms_cat(ss), terms_cat(ss.take(i + 1)).len() as int);
                lemma_bytes_at_concat(data@, off as int, terms_cat(ss.take(i as int)), term_item(ss[i as int]));
                assert(term_ok(ss[i as int]));
                assert(ss.take(i + 1) =~= ss.take(i as int).push(ss[i as int]));
            }
            assert forall|j: int| 0 <= j < i + 1 implies term_ok(#[trigger] w[j]) by {
                if j < i {
                    assert(w[j] == terms_views(v@)[j]);
                }
            }
        }
        v.push(t);
        o = o2;
        i += 1;
    }
    proof {
        if n == 0 {
            assert forall|ss: Seq<(Seq<char>, Seq<(Seq<char>, u32, bool)>)>|
                ss.len() == n && terms_all_ok(ss) && #[trigger] bytes_at(data@, off as int, terms_cat(ss))
                implies terms_views(v@) == ss by {
                assert(ss =~= Seq::<(Seq<char>, Seq<(Seq<char>, u32, bool)>)>::empty());
            }
        } else {
            assert forall|ss: Seq<(Seq<char>, Seq<(Seq<char>, u32, bool)>)>|
                ss.len() == n && terms_all_ok(ss) && #[trigger] bytes_at(data@, off as int, terms_cat(ss))
                implies terms_views(v@) == ss by {
                assert(ss.take(n as int) =~= ss);
            }
        }
    }
    Ok((v, o))
}

fn read_doclens_list(data: &[u8], off: usize, n: usize) -> (r: Result<(Vec<(String, u32)>, usize), &'static str>)
    requires
        off <= data@.len(),
    ensures
        r matches Ok((v, o2)) ==> v@.len() == n && doclens_all_ok(doclens_views(v@)) && bytes_at(
            data@,
            off as int,
            doclens_cat(doclens_views(v@)),
        ) && o2 == off + doclens_cat(doclens_views(v@)).len(),
        forall|ss: Seq<(Seq<char>, u32)>|
            ss.len() == n && doclens_all_ok(ss) && #[trigger] bytes_at(data@, off as int, doclens_cat(ss))
                ==> (r matches Ok((v, o2)) && doclens_views(v@) == ss && o2 == off + doclens_cat(ss).len()),
{
    let dlen = data.len();
    assert(dlen == data@.len());
    let mut v: Vec<(String, u32)> = Vec::new();
    let mut o = off;
    let mut i: usize = 0;
    proof {
        assert(doclens_views(v@) =~= Seq::<(Seq<char>, u32)>::empty());
        assert(doclens_cat(Seq::<(Seq<char>, u32)>::empty()) =~= Seq::<u8>::empty());
        assert(data@.subrange(off as int, off as int) =~= Seq::<u8>::empty());
    }
    while i < n
        invariant
            0 <= i <= n,
            v@.len() == i,
            o == off + doclens_cat(doclens_views(v@)).len(),
            off <= data@.len(),
            bytes_at(data@, off as int, doclens_cat(doclens_views(v@))),
            doclens_all_ok(doclens_views(v@)),
            forall|ss: Seq<(Seq<char>, u32)>|
                ss.len() == n && doclens_all_ok(ss) && #[trigger] bytes_at(data@, off as int, doclens_cat(ss))
                    ==> doclens_views(v@) == ss.take(i as int),
        decreases n - i,
    {
        let (t, o2) = match read_doclen(data, o) {
            Ok(x) => x,
            Err(e) => {
                proof {
                    assert forall|ss: Seq<(Seq<char>, u32)>|
                        ss.len() == n && doclens_all_ok(ss) && #[trigger] bytes_at(data@, off as int, doclens_cat(ss))
                        implies false by {
                        lemma_doclens_prefix(ss, i + 1);
                        lemma_doclens_step(ss, i as int);
                        lemma_bytes_at_prefix(data@, off as int, doclens_cat(ss), doclens_cat(ss.take(i + 1)).len() as int);
                        lemma_bytes_at_concat(data@, off as int, doclens_cat(ss.take(i as int)), doclen_item(ss[i as int]));
                        assert(doclen_ok(ss[i as int]));
                    }
                }
                return Err(e);
            },
        };
        proof {
            let w = doclens_views(v@).push(doclen_view(t));
            assert(doclens_views(v@.push(t)) =~= w);
            lemma_doclens_step(w, i as int);
            assert(w.take(i as int) =~= doclens_views(v@));
            assert(w.take(i + 1) =~= w);
            lemma_bytes_at_concat(data@, off as int, doclens_cat(doclens_views(v@)), doclen_item(doclen_view(t)));
            assert forall|ss: Seq<(Seq<char>, u32)>|
                ss.len() == n && doclens_all_ok(ss) && #[trigger] bytes_at(data@, off as int, doclens_cat(ss))
                implies w == ss.take(i + 1) by {
                lemma_doclens_prefix(ss, i + 1);
                lemma_doclens_step(ss, i as int);
                lemma_bytes_at_prefix(data@, off as int, doclens_cat(ss), doclens_cat(ss.take(i + 1)).len() as int);
                lemma_bytes_at_concat(data@, off as int, doclens_cat(ss.take(i as int)), doclen_item(ss[i as int]));
                assert(doclen_ok(ss[i as int]));
                assert(ss.take(i + 1) =~= ss.take(i as int).push(ss[i as int]));
            }
            assert forall|j: int| 0 <= j < i + 1 implies doclen_ok(#[trigger] w[j]) by {
                if j < i {
                    assert(w[j] == doclens_views(v@)[j]);
                }
            }
        }
        v.push(t);
        o = o2;
        i += 1;
    }
    proof {
        if n == 0 {
            assert forall|ss: Seq<(Seq<char>, u32)>|
                ss.len() == n && doclens_all_ok(ss) && #[trigger] bytes_at(data@, off as int, doclens_cat(ss))
                implies doclens_views(v@) == ss by {
                assert(ss =~= Seq::<(Seq<char>, u32)>::empty());
            }
        } else {
            assert forall|ss: Seq<(Seq<char>, u32)>|
                ss.len() == n && doclens_all_ok(ss) && #[trigger] bytes_at(data@, off as int, doclens_cat(ss))
                implies doclens_views(v@) == ss by {
                assert(ss.take(n as int) =~= ss);
            }
        }
    }
    Ok((v, o))
}

fn read_bqs_list(data: &[u8], off: usize, n: usize) -> (r: Result<(Vec<(String, Vec<u64>)>, usize), &'static str>)
    requires
        off <= data@.len(),
    ensures
        r matches Ok((v, o2)) ==> v@.len() == n && bqs_all_ok(bqs_views(v@)) && bytes_at(
            data@,
            off as int,
            bqs_cat(bqs_views(v@)),
        ) && o2 == off + bqs_cat(bqs_views(v@)).len(),
        forall|ss: Seq<(Seq<char>, Seq<u64>)>|
            ss.len() == n && bqs_all_ok(ss) && #[trigger] bytes_at(data@, off as int, bqs_cat(ss))
                ==> (r matches Ok((v, o2)) && bqs_views(v@) == ss && o2 == off + bqs_cat(ss).len()),
{
    let dlen = data.len();
    assert(dlen == data@.len());
    let mut v: Vec<(String, Vec<u64>)> = Vec::new();
    let mut o = off;
    let mut i: usize = 0;
    proof {
        assert(bqs_views(v@) =~= Seq::<(Seq<char>, Seq<u64>)>::empty());
        assert(bqs_cat(Seq::<(Seq<char>, Seq<u64>)>::empty()) =~= Seq::<u8>::empty());
        assert(data@.subrange(off as int, off as int) =~= Seq::<u8>::empty());
    }
    while i < n
        invariant
            0 <= i <= n,
            v@.len() == i,
            o == off + bqs_cat(bqs_views(v@)).len(),
            off <= data@.len(),
            bytes_at(data@, off as int, bqs_cat(bqs_views(v@))),
            bqs_all_ok(bqs_views(v@)),
            forall|ss: Seq<(Seq<char>, Seq<u64>)>|
                ss.len() == n && bqs_all_ok(ss) && #[trigger] bytes_at(data@, off as int, bqs_cat(ss))
                    ==> bqs_views(v@) == ss.take(i as int),
        decreases n - i,
    {
        let (t, o2) = match read_bq(data, o) {
            Ok(x) => x,
            Err(e) => {
                proof {
                    assert forall|ss: Seq<(Seq<char>, Seq<u64>)>|
                        ss.len() == n && bqs_all_ok(ss) && #[trigger] bytes_at(data@, off as int, bqs_cat(ss))
                        implies false by {
                        lemma_bqs_prefix(ss, i + 1);
                        lemma_bqs_step(ss, i as int);
                        lemma_bytes_at_prefix(data@, off as int, bqs_cat(ss), bqs_cat(ss.take(i + 1)).len() as int);
                        lemma_bytes_at_concat(data@, off as int, bqs_cat(ss.take(i as int)), bq_item(ss[i as int]));
                        assert(bq_ok(ss[i as int]));
                    }
                }
                return Err(e);
            },
        };
        proof {
            let w = bqs_views(v@).push(bq_view(t));
            assert(bqs_views(v@.push(t)) =~= w);
            lemma_bqs_step(w, i as int);
            assert(w.take(i as int) =~= bqs_views(v@));
            assert(w.take(i + 1) =~= w);
            lemma_bytes_at_concat(data@, off as int, bqs_cat(bqs_views(v@)), bq_item(bq_view(t)));
            assert forall|ss: Seq<(Seq<char>, Seq<u64>)>|
                ss.len() == n && bqs_all_ok(ss) && #[trigger] bytes_at(data@, off as int, bqs_cat(ss))
                implies w == ss.take(i + 1) by {
                lemma_bqs_prefix(ss, i + 1);
                lemma_bqs_step(ss, i as int);
                lemma_bytes_at_prefix(data@, off as int, bqs_cat(ss), bqs_cat(ss.take(i + 1)).len() as int);
                lemma_bytes_at_concat(data@, off as int, bqs_cat(ss.take(i as int)), bq_item(ss[i as int]));
                assert(bq_ok(ss[i as int]));
                assert(ss.take(i + 1) =~= ss.take(i as int).push(ss[i as int]));
            }
            assert forall|j: int| 0 <= j < i + 1 implies bq_ok(#[trigger] w[j]) by {
                if j < i {
                    assert(w[j] == bqs_views(v@)[j]);
                }
            }
        }
        v.push(t);
        o = o2;
        i += 1;
    }
    proof {
        if n == 0 {
            assert forall|ss: Seq<(Seq<char>, Seq<u64>)>|
                ss.len() == n && bqs_all_ok(ss) && #[trigger] bytes_at(data@, off as int, bqs_cat(ss))
                implies bqs_views(v@) == ss by {
                assert(ss =~= Seq::<(Seq<char>, Seq<u64>)>::empty());
            }
        } else {
            assert forall|ss: Seq<(Seq<char>, Seq<u64>)>|
                ss.len() == n && bqs_all_ok(ss) && #[trigger] bytes_at(data@, off as int, bqs_cat(ss))
                implies bqs_views(v@) == ss by {
                assert(ss.take(n as int) =~= ss);
            }
        }
    }
    Ok((v, o))
}

/// A counted list of dims items.
pub open spec fn dims_sec(ss: Seq<usize>) -> Seq<u8> {
    spec_u32_to_le_bytes(ss.len() as u32) + dims_cat(ss)
}

fn read_dims_sec(data: &[u8], off: usize) -> (r: Result<(Vec<usize>, usize), &'static str>)
    requires
        off <= data@.len(),
    ensures
        r matches Ok((v, o2)) ==> v@.len() <= MAX_EMBEDDING_DIM && dims_all_ok(dims_views(v@)) && bytes_at(
            data@,
            off as int,
            dims_sec(dims_views(v@)),
        ) && o2 == off + dims_sec(dims_views(v@)).len(),
        forall|ss: Seq<usize>|
            ss.len() <= MAX_EMBEDDING_DIM && dims_all_ok(ss) && #[trigger] bytes_at(data@, off as int, dims_sec(ss))
                ==> (r matches Ok((v, o2)) && dims_views(v@) == ss && o2 == off + dims_sec(ss).len()),
{
    let dlen = data.len();
    assert(dlen == data@.len());
    proof {
        lemma_le_bytes_roundtrip();
    }
    let n = match rd_u32(data, off) {
        Some(x) => x as usize,
        None => {
            proof {
                assert forall|ss: Seq<usize>|
                    ss.len() <= MAX_EMBEDDING_DIM && dims_all_ok(ss) && #[trigger] bytes_at(data@, off as int, dims_sec(ss))
                    implies false by {
                    lemma_sec_head(data@, off as int, ss.len() as u32, dims_cat(ss));
                }
            }
            return Err("trunc ndims");
        },
    };
    proof {
        assert forall|ss: Seq<usize>|
            ss.len() <= MAX_EMBEDDING_DIM && dims_all_ok(ss) && #[trigger] bytes_at(data@, off as int, dims_sec(ss))
            implies ss.len() == n && bytes_at(data@, off + 4, dims_cat(ss)) by {
            lemma_sec_head(data@, off as int, ss.len() as u32, dims_cat(ss));
        }
    }
        if n > MAX_EMBEDDING_DIM {
            proof {
                assert forall|ss: Seq<usize>|
                    ss.len() <= MAX_EMBEDDING_DIM && dims_all_ok(ss) && #[trigger] bytes_at(data@, off as int, dims_sec(ss))
                    implies false by {
                    lemma_sec_head(data@, off as int, ss.len() as u32, dims_cat(ss));
                }
            }
            return Err("ndims over limit");
        }
    let (v, o2) = match read_dims_list(data, off + 4, n) {
        Ok(x) => x,
        Err(e) => {
            return Err(e);
        },
    };
    proof {
        lemma_sec_head(data@, off as int, n as u32, dims_cat(dims_views(v@)));
        lemma_bytes_at_concat(data@, off as int, spec_u32_to_le_bytes(n as u32), dims_cat(dims_views(v@)));
    }
    Ok((v, o2))
}

/// A counted list of counts items.
pub open spec fn counts_sec(ss: Seq<(usize, u64)>) -> Seq<u8> {
    spec_u32_to_le_bytes(ss.len() as u32) + counts_cat(ss)
}

fn read_counts_sec(data: &[u8], off: usize) -> (r: Result<(Vec<(usize, u64)>, usize), &'static str>)
    requires
        off <= data@.len(),
    ensures
        r matches Ok((v, o2)) ==> v@.len() <= MAX_EMBEDDING_DIM && counts_all_ok(counts_views(v@)) && bytes_at(
            data@,
            off as int,
            counts_sec(counts_views(v@)),
        ) && o2 == off + counts_sec(counts_views(v@)).len(),
        forall|ss: Seq<(usize, u64)>|
            ss.len() <= MAX_EMBEDDING_DIM && counts_all_ok(ss) && #[trigger] bytes_at(data@, off as int, counts_sec(ss))
                ==> (r matches Ok((v, o2)) && counts_views(v@) == ss && o2 == off + counts_sec(ss).len()),
{
    let dlen = data.len();
    assert(dlen == data@.len());
    proof {
        lemma_le_bytes_roundtrip();
    }
    let n = match rd_u32(data, off) {
        Some(x) => x as usize,
        None => {
            proof {
                assert forall|ss: Seq<(usize, u64)>|
                    ss.len() <= MAX_EMBEDDING_DIM && counts_all_ok(ss) && #[trigger] bytes_at(data@, off as int, counts_sec(ss))
                    implies false by {
                    lemma_sec_head(data@, off as int, ss.len() as u32, counts_cat(ss));
                }
            }
            return Err("trunc ncounts");
        },
    };
    proof {
        assert forall|ss: Seq<(usize, u64)>|
            ss.len() <= MAX_EMBEDDING_DIM && counts_all_ok(ss) && #[trigger] bytes_at(data@, off as int, counts_sec(ss))
            implies ss.len() == n && bytes_at(data@, off + 4, counts_cat(ss)) by {
            lemma_sec_head(data@, off as int, ss.len() as u32, counts_cat(ss));
        }
    }
        if n > MAX_EMBEDDING_DIM {
            proof {
                assert forall|ss: Seq<(usize, u64)>|
                    ss.len() <= MAX_EMBEDDING_DIM && counts_all_ok(ss) && #[trigger] bytes_at(data@, off as int, counts_sec(ss))
                    implies false by {
                    lemma_sec_head(data@, off as int, ss.len() as u32, counts_cat(ss));
                }
            }
            return Err("ncounts over limit");
        }
    let (v, o2) = match read_counts_list(data, off + 4, n) {
        Ok(x) => x,
        Err(e) => {
            return Err(e);
        },
    };
    proof {
        lemma_sec_head(data@, off as int, n as u32, counts_cat(counts_views(v@)));
        lemma_bytes_at_concat(data@, off as int, spec_u32_to_le_bytes(n as u32), counts_cat(counts_views(v@)));
    }
    Ok((v, o2))
}

/// A counted list of keys items.
pub open spec fn keys_sec(ss: Seq<Seq<char>>) -> Seq<u8> {
    spec_u32_to_le_bytes(ss.len() as u32) + keys_cat(ss)
}

fn read_keys_sec(data: &[u8], off: usize) -> (r: Result<(Vec<String>, usize), &'static str>)
    requires
        off <= data@.len(),
    ensures
        r matches Ok((v, o2)) ==> v@.len() <= MAX_SNAPSHOT_KEYS && keys_all_ok(keys_views(v@)) && bytes_at(
            data@,
            off as int,
            keys_sec(keys_views(v@)),
        ) && o2 == off + keys_sec(keys_views(v@)).len(),
        forall|ss: Seq<Seq<char>>|
            ss.len() <= MAX_SNAPSHOT_KEYS && keys_all_ok(ss) && #[trigger] bytes_at(data@, off as int, keys_sec(ss))
                ==> (r matches Ok((v, o2)) && keys_views(v@) == ss && o2 == off + keys_sec(ss).len()),
{
    let dlen = data.len();
    assert(dlen == data@.len());
    proof {
        lemma_le_bytes_roundtrip();
    }
    let n = match rd_u32(data, off) {
        Some(x) => x as usize,
        None => {
            proof {
                assert forall|ss: Seq<Seq<char>>|
                    ss.len() <= MAX_SNAPSHOT_KEYS && keys_all_ok(ss) && #[trigger] bytes_at(data@, off as int, keys_sec(ss))
                    implies false by {
                    lemma_sec_head(data@, off as int, ss.len() as u32, keys_cat(ss));
                }
            }
            return Err("trunc nkeys");
        },
    };
    proof {
        assert forall|ss: Seq<Seq<char>>|
            ss.len() <= MAX_SNAPSHOT_KEYS && keys_all_ok(ss) && #[trigger] bytes_at(data@, off as int, keys_sec(ss))
            implies ss.len() == n && bytes_at(data@, off + 4, keys_cat(ss)) by {
            lemma_sec_head(data@, off as int, ss.len() as u32, keys_cat(ss));
        }
    }
        if n > MAX_SNAPSHOT_KEYS {
            proof {
                assert forall|ss: Seq<Seq<char>>|
                    ss.len() <= MAX_SNAPSHOT_KEYS && keys_all_ok(ss) && #[trigger] bytes_at(data@, off as int, keys_sec(ss))
                    implies false by {
                    lemma_sec_head(data@, off as int, ss.len() as u32, keys_cat(ss));
                }
            }
            return Err("nkeys over limit");
        }
    let (v, o2) = match read_keys_list(data, off + 4, n) {
        Ok(x) => x,
        Err(e) => {
            return Err(e);
        },
    };
    proof {
        lemma_sec_head(data@, off as int, n as u32, keys_cat(keys_views(v@)));
        lemma_bytes_at_concat(data@, off as int, spec_u32_to_le_bytes(n as u32), keys_cat(keys_views(v@)));
    }
    Ok((v, o2))
}

/// A counted list of ents items.
pub open spec fn ents_sec(ss: Seq<(Seq<char>, Seq<Seq<char>>)>) -> Seq<u8> {
    spec_u32_to_le_bytes(ss.len() as u32) + ents_cat(ss)
}

fn read_ents_sec(data: &[u8], off: usize) -> (r: Result<(Vec<(String, Vec<String>)>, usize), &'static str>)
    requires
        off <= data@.len(),
    ensures
        r matches Ok((v, o2)) ==> v@.len() <= u32::MAX && ents_all_ok(ents_views(v@)) && bytes_at(
            data@,
            off as int,
            ents_sec(ents_views(v@)),
        ) && o2 == off + ents_sec(ents_views(v@)).len(),
        forall|ss: Seq<(Seq<char>, Seq<Seq<char>>)>|
            ss.len() <= u32::MAX && ents_all_ok(ss) && #[trigger] bytes_at(data@, off as int, ents_sec(ss))
                ==> (r matches Ok((v, o2)) && ents_views(v@) == ss && o2 == off + ents_sec(ss).len()),
{
    let dlen = data.len();
    assert(dlen == data@.len());
    proof {
        lemma_le_bytes_roundtrip();
    }
    let n = match rd_u32(data, off) {
        Some(x) => x as usize,
        None => {
            proof {
                assert forall|ss: Seq<(Seq<char>, Seq<Seq<char>>)>|
                    ss.len() <= u32::MAX && ents_all_ok(ss) && #[trigger] bytes_at(data@, off as int, ents_sec(ss))
                    implies false by {
                    lemma_sec_head(data@, off as int, ss.len() as u32, ents_cat(ss));
                }
            }
            return Err("trunc nents");
        },
    };
    proof {
        assert forall|ss: Seq<(Seq<char>, Seq<Seq<char>>)>|
            ss.len() <= u32::MAX && ents_all_ok(ss) && #[trigger] bytes_at(data@, off as int, ents_sec(ss))
            implies ss.len() == n && bytes_at(data@, off + 4, ents_cat(ss)) by {
            lemma_sec_head(data@, off as int, ss.len() as u32, ents_cat(ss));
        }
    }
    let (v, o2) = match read_ents_list(data, off + 4, n) {
        Ok(x) => x,
        Err(e) => {
            return Err(e);
        },
    };
    proof {
        lemma_sec_head(data@, off as int, n as u32, ents_cat(ents_views(v@)));
        lemma_bytes_at_concat(data@, off as int, spec_u32_to_le_bytes(n as u32), ents_cat(ents_views(v@)));
    }
    Ok((v, o2))
}

/// A counted list of terms items.
pub open spec fn terms_sec(ss: Seq<(Seq<char>, Seq<(Seq<char>, u32, bool)>)>) -> Seq<u8> {
    spec_u32_to_le_bytes(ss.len() as u32) + terms_cat(ss)
}

fn read_terms_sec(data: &[u8], off: usize) -> (r: Result<(Vec<(String, Vec<(String, u32, bool)>)>, usize), &'static str>)
    requires
        off <= data@.len(),
    ensures
        r matches Ok((v, o2)) ==> v@.len() <= u32::MAX && terms_all_ok(terms_views(v@)) && bytes_at(
            data@,
            off as int,
            terms_sec(terms_views(v@)),
        ) && o2 == off + terms_sec(terms_views(v@)).len(),
        forall|ss: Seq<(Seq<char>, Seq<(Seq<char>, u32, bool)>)>|
            ss.len() <= u32::MAX && terms_all_ok(ss) && #[trigger] bytes_at(data@, off as int, terms_sec(ss))
                ==> (r matches Ok((v, o2)) && terms_views(v@) == ss && o2 == off + terms_sec(ss).len()),
{
    let dlen = data.len();
    assert(dlen == data@.len());
    proof {
        lemma_le_bytes_roundtrip();
    }
    let n = match rd_u32(data, off) {
        Some(x) => x as usize,
        None => {
            proof {
                assert forall|ss: Seq<(Seq<char>, Seq<(Seq<char>, u32, bool)>)>|
                    ss.len() <= u32::MAX && terms_all_ok(ss) && #[trigger] bytes_at(data@, off as int, terms_sec(ss))
                    implies false by {
                    lemma_sec_head(data@, off as int, ss.len() as u32, terms_cat(ss));
                }
            }
            return Err("trunc nterms");
        },
    };
    proof {
        assert forall|ss: Seq<(Seq<char>, Seq<(Seq<char>, u32, bool)>)>|
            ss.len() <= u32::MAX && terms_all_ok(ss) && #[trigger] bytes_at(data@, off as int, terms_sec(ss))
            implies ss.len() == n && bytes_at(data@, off + 4, terms_cat(ss)) by {
            lemma_sec_head(data@, off as int, ss.len() as u32, terms_cat(ss));
        }
    }
    let (v, o2) = match read_terms_list(data, off + 4, n) {
        Ok(x) => x,
        Err(e) => {
            return Err(e);
        },
    };
    proof {
        lemma_sec_head(data@, off as int, n as u32, terms_cat(terms_views(v@)));
        lemma_bytes_at_concat(data@, off as int, spec_u32_to_le_bytes(n as u32), terms_cat(terms_views(v@)));
    }
    Ok((v, o2))
}

/// A counted list of doclens items.
pub open spec fn doclens_sec(ss: Seq<(Seq<char>, u32)>) -> Seq<u8> {
    spec_u32_to_le_bytes(ss.len() as u32) + doclens_cat(ss)
}

fn read_doclens_sec(data: &[u8], off: usize) -> (r: Result<(Vec<(String, u32)>, usize), &'static str>)
    requires
        off <= data@.len(),
    ensures
        r matches Ok((v, o2)) ==> v@.len() <= u32::MAX && doclens_all_ok(doclens_views(v@)) && bytes_at(
            data@,
            off as int,
            doclens_sec(doclens_views(v@)),
        ) && o2 == off + doclens_sec(doclens_views(v@)).len(),
        forall|ss: Seq<(Seq<char>, u32)>|
            ss.len() <= u32::MAX && doclens_all_ok(ss) && #[trigger] bytes_at(data@, off as int, doclens_sec(ss))
                ==> (r matches Ok((v, o2)) && doclens_views(v@) == ss && o2 == off + doclens_sec(ss).len()),
{
    let dlen = data.len();
    assert(dlen == data@.len());
    proof {
        lemma_le_bytes_roundtrip();
    }
    let n = match rd_u32(data, off) {
        Some(x) => x as usize,
        None => {
            proof {
                assert forall|ss: Seq<(Seq<char>, u32)>|
                    ss.len() <= u32::MAX && doclens_all_ok(ss) && #[trigger] bytes_at(data@, off as int, doclens_sec(ss))
                    implies false by {
                    lemma_sec_head(data@, off as int, ss.len() as u32, doclens_cat(ss));
                }
            }
            return Err("trunc ndl");
        },
    };
    proof {
        assert forall|ss: Seq<(Seq<char>, u32)>|
            ss.len() <= u32::MAX && doclens_all_ok(ss) && #[trigger] bytes_at(data@, off as int, doclens_sec(ss))
            implies ss.len() == n && bytes_at(data@, off + 4, doclens_cat(ss)) by {
            lemma_sec_head(data@, off as int, ss.len() as u32, doclens_cat(ss));
        }
    }
    let (v, o2) = match read_doclens_list(data, off + 4, n) {
        Ok(x) => x,
        Err(e) => {
            return Err(e);
        },
    };
    proof {
        lemma_sec_head(data@, off as int, n as u32, doclens_cat(doclens_views(v@)));
        lemma_bytes_at_concat(data@, off as int, spec_u32_to_le_bytes(n as u32), doclens_cat(doclens_views(v@)));
    }
    Ok((v, o2))
}

/// A counted list of bqs items.
pub open spec fn bqs_sec(ss: Seq<(Seq<char>, Seq<u64>)>) -> Seq<u8> {
    spec_u32_to_le_bytes(ss.len() as u32) + bqs_cat(ss)
}

fn read_bqs_sec(data: &[u8], off: usize) -> (r: Result<(Vec<(String, Vec<u64>)>, usize), &'static str>)
    requires
        off <= data@.len(),
    ensures
        r matches Ok((v, o2)) ==> v@.len() <= u32::MAX && bqs_all_ok(bqs_views(v@)) && bytes_at(
            data@,
            off as int,
            bqs_sec(bqs_views(v@)),
        ) && o2 == off + bqs_sec(bqs_views(v@)).len(),
        forall|ss: Seq<(Seq<char>, Seq<u64>)>|
            ss.len() <= u32::MAX && bqs_all_ok(ss) && #[trigger] bytes_at(data@, off as int, bqs_sec(ss))
                ==> (r matches Ok((v, o2)) && bqs_views(v@) == ss && o2 == off + bqs_sec(ss).len()),
{
    let dlen = data.len();
    assert(dlen == data@.len());
    proof {
        lemma_le_bytes_roundtrip();
    }
    let n = match rd_u32(data, off) {
        Some(x) => x as usize,
        None => {
            proof {
                assert forall|ss: Seq<(Seq<char>, Seq<u64>)>|
                    ss.len() <= u32::MAX && bqs_all_ok(ss) && #[trigger] bytes_at(data@, off as int, bqs_sec(ss))
                    implies false by {
                    lemma_sec_head(data@, off as int, ss.len() as u32, bqs_cat(ss));
                }
            }
            return Err("trunc nbq");
        },
    };
    proof {
        assert forall|ss: Seq<(Seq<char>, Seq<u64>)>|
            ss.len() <= u32::MAX && bqs_all_ok(ss) && #[trigger] bytes_at(data@, off as int, bqs_sec(ss))
            implies ss.len() == n && bytes_at(data@, off + 4, bqs_cat(ss)) by {
            lemma_sec_head(data@, off as int, ss.len() as u32, bqs_cat(ss));
        }
    }
    let (v, o2) = match read_bqs_list(data, off + 4, n) {
        Ok(x) => x,
        Err(e) => {
            return Err(e);
        },
    };
    proof {
        lemma_sec_head(data@, off as int, n as u32, bqs_cat(bqs_views(v@)));
        lemma_bytes_at_concat(data@, off as int, spec_u32_to_le_bytes(n as u32), bqs_cat(bqs_views(v@)));
    }
    Ok((v, o2))
}


// ---- encoding ----------------------------------------------------------------

fn push_dim(out: &mut Vec<u8>, d: &usize)
    ensures
        final(out)@ == old(out)@ + dim_item(same_usize(*d)),
{
    push_u32(out, *d as u32);
}

fn push_count(out: &mut Vec<u8>, c: &(usize, u64))
    ensures
        final(out)@ == old(out)@ + count_item(same_count(*c)),
{
    push_u32(out, c.0 as u32);
    push_u64(out, c.1);
    assert(final(out)@ =~= old(out)@ + count_item(same_count(*c)));
}

fn push_key(out: &mut Vec<u8>, s: &String)
    ensures
        final(out)@ == old(out)@ + key_item(text_of(*s)),
{
    push_str16(out, s.as_str());
}

fn push_word(out: &mut Vec<u8>, w: &u64)
    ensures
        final(out)@ == old(out)@ + word_item(same_word(*w)),
{
    push_u64(out, *w);
}

fn push_pdoc(out: &mut Vec<u8>, d: &(String, u32))
    ensures
        final(out)@ == old(out)@ + pdoc_item(pdoc_canon(*d)),
{
    push_str16(out, d.0.as_str());
    let tf = d.1;
    if tf >= 255 {
        out.push(255u8);
        push_u32(out, tf);
    } else {
        out.push(tf as u8);
    }
    assert(final(out)@ =~= old(out)@ + pdoc_item(pdoc_canon(*d)));
}

fn push_doclen(out: &mut Vec<u8>, d: &(String, u32))
    ensures
        final(out)@ == old(out)@ + doclen_item(doclen_view(*d)),
{
    push_str16(out, d.0.as_str());
    push_u32(out, d.1);
    assert(final(out)@ =~= old(out)@ + doclen_item(doclen_view(*d)));
}

fn push_keys_list(out: &mut Vec<u8>, v: &Vec<String>)
    ensures
        final(out)@ == old(out)@ + keys_cat(keys_views(v@)),
{
    let ghost head = old(out)@;
    let mut i: usize = 0;
    while i < v.len()
        invariant
            0 <= i <= v@.len(),
            out@ == head + keys_cat(keys_views(v@).take(i as int)),
        decreases v@.len() - i,
    {
        push_key(out, &v[i]);
        proof {
            lemma_keys_step(keys_views(v@), i as int);
            assert(keys_views(v@)[i as int] == text_of(v@[i as int]));
        }
        i += 1;
        assert(out@ =~= head + keys_cat(keys_views(v@).take(i as int)));
    }
    assert(keys_views(v@).take(i as int) =~= keys_views(v@));
}

fn push_dims_list(out: &mut Vec<u8>, v: &Vec<usize>)
    ensures
        final(out)@ == old(out)@ + dims_cat(dims_views(v@)),
{
    let ghost head = old(out)@;
    let mut i: usize = 0;
    while i < v.len()
        invariant
            0 <= i <= v@.len(),
            out@ == head + dims_cat(dims_views(v@).take(i as int)),
        decreases v@.len() - i,
    {
        push_dim(out, &v[i]);
        proof {
            lemma_dims_step(dims_views(v@), i as int);
            assert(dims_views(v@)[i as int] == same_usize(v@[i as int]));
        }
        i += 1;
        assert(out@ =~= head + dims_cat(dims_views(v@).take(i as int)));
    }
    assert(dims_views(v@).take(i as int) =~= dims_views(v@));
}

fn push_counts_list(out: &mut Vec<u8>, v: &Vec<(usize, u64)>)
    ensures
        final(out)@ == old(out)@ + counts_cat(counts_views(v@)),
{
    let ghost head = old(out)@;
    let mut i: usize = 0;
    while i < v.len()
        invariant
            0 <= i <= v@.len(),
            out@ == head + counts_cat(counts_views(v@).take(i as int)),
        decreases v@.len() - i,
    {
        push_count(out, &v[i]);
        proof {
            lemma_counts_step(counts_views(v@), i as int);
            assert(counts_views(v@)[i as int] == same_count(v@[i as int]));
        }
        i += 1;
        assert(out@ =~= head + counts_cat(counts_views(v@).take(i as int)));
    }
    assert(counts_views(v@).take(i as int) =~= counts_views(v@));
}

fn push_words_list(out: &mut Vec<u8>, v: &Vec<u64>)
    ensures
        final(out)@ == old(out)@ + words_cat(words_views(v@)),
{
    let ghost head = old(out)@;
    let mut i: usize = 0;
    while i < v.len()
        invariant
            0 <= i <= v@.len(),
            out@ == head + words_cat(words_views(v@).take(i as int)),
        decreases v@.len() - i,
    {
        push_word(out, &v[i]);
        proof {
            lemma_words_step(words_views(v@), i as int);
            assert(words_views(v@)[i as int] == same_word(v@[i as int]));
        }
        i += 1;
        assert(out@ =~= head + words_cat(words_views(v@).take(i as int)));
    }
    assert(words_views(v@).take(i as int) =~= words_views(v@));
}

fn push_pdocs_canon_list(out: &mut Vec<u8>, v: &Vec<(String, u32)>)
    ensures
        final(out)@ == old(out)@ + pdocs_cat(pdocs_canon(v@)),
{
    let ghost head = old(out)@;
    let mut i: usize = 0;
    while i < v.len()
        invariant
            0 <= i <= v@.len(),
            out@ == head + pdocs_cat(pdocs_canon(v@).take(i as int)),
        decreases v@.len() - i,
    {
        push_pdoc(out, &v[i]);
        proof {
            lemma_pdocs_step(pdocs_canon(v@), i as int);
            assert(pdocs_canon(v@)[i as int] == pdoc_canon(v@[i as int]));
        }
        i += 1;
        assert(out@ =~= head + pdocs_cat(pdocs_canon(v@).take(i as int)));
    }
    assert(pdocs_canon(v@).take(i as int) =~= pdocs_canon(v@));
}

fn push_doclens_list(out: &mut Vec<u8>, v: &Vec<(String, u32)>)
    ensures
        final(out)@ == old(out)@ + doclens_cat(doclens_views(v@)),
{
    let ghost head = old(out)@;
    let mut i: usize = 0;
    while i < v.len()
        invariant
            0 <= i <= v@.len(),
            out@ == head + doclens_cat(doclens_views(v@).take(i as int)),
        decreases v@.len() - i,
    {
        push_doclen(out, &v[i]);
        proof {
            lemma_doclens_step(doclens_views(v@), i as int);
            assert(doclens_views(v@)[i as int] == doclen_view(v@[i as int]));
        }
        i += 1;
        assert(out@ =~= head + doclens_cat(doclens_views(v@).take(i as int)));
    }
    assert(doclens_views(v@).take(i as int) =~= doclens_views(v@));
}

fn push_ent(out: &mut Vec<u8>, e: &(String, Vec<String>))
    ensures
        final(out)@ == old(out)@ + ent_item(ent_view(*e)),
{
    push_str16(out, e.0.as_str());
    push_u32(out, e.1.len() as u32);
    push_keys_list(out, &e.1);
    assert(final(out)@ =~= old(out)@ + ent_item(ent_view(*e)));
}

fn push_term(out: &mut Vec<u8>, t: &(String, Vec<(String, u32)>))
    ensures
        final(out)@ == old(out)@ + term_item(term_canon(*t)),
{
    push_str16(out, t.0.as_str());
    push_u32(out, t.1.len() as u32);
    push_pdocs_canon_list(out, &t.1);
    assert(final(out)@ =~= old(out)@ + term_item(term_canon(*t)));
}

fn push_bq(out: &mut Vec<u8>, e: &(String, Vec<u64>))
    ensures
        final(out)@ == old(out)@ + bq_item(bq_view(*e)),
{
    push_str16(out, e.0.as_str());
    push_u16(out, e.1.len() as u16);
    push_words_list(out, &e.1);
    assert(words_views(e.1@) =~= e.1@);
    assert(final(out)@ =~= old(out)@ + bq_item(bq_view(*e)));
}

fn push_ents_list(out: &mut Vec<u8>, v: &Vec<(String, Vec<String>)>)
    ensures
        final(out)@ == old(out)@ + ents_cat(ents_views(v@)),
{
    let ghost head = old(out)@;
    let mut i: usize = 0;
    while i < v.len()
        invariant
            0 <= i <= v@.len(),
            out@ == head + ents_cat(ents_views(v@).take(i as int)),
        decreases v@.len() - i,
    {
        push_ent(out, &v[i]);
        proof {
            lemma_ents_step(ents_views(v@), i as int);
            assert(ents_views(v@)[i as int] == ent_view(v@[i as int]));
        }
        i += 1;
        assert(out@ =~= head + ents_cat(ents_views(v@).take(i as int)));
    }
    assert(ents_views(v@).take(i as int) =~= ents_views(v@));
}

fn push_terms_canon_list(out: &mut Vec<u8>, v: &Vec<(String, Vec<(String, u32)>)>)
    ensures
        final(out)@ == old(out)@ + terms_cat(terms_canon(v@)),
{
    let ghost head = old(out)@;
    let mut i: usize = 0;
    while i < v.len()
        invariant
            0 <= i <= v@.len(),
            out@ == head + terms_cat(terms_canon(v@).take(i as int)),
        decreases v@.len() - i,
    {
        push_term(out, &v[i]);
        proof {
            lemma_terms_step(terms_canon(v@), i as int);
            assert(terms_canon(v@)[i as int] == term_canon(v@[i as int]));
        }
        i += 1;
        assert(out@ =~= head + terms_cat(terms_canon(v@).take(i as int)));
    }
    assert(terms_canon(v@).take(i as int) =~= terms_canon(v@));
}

fn push_bqs_list(out: &mut Vec<u8>, v: &Vec<(String, Vec<u64>)>)
    ensures
        final(out)@ == old(out)@ + bqs_cat(bqs_views(v@)),
{
    let ghost head = old(out)@;
    let mut i: usize = 0;
    while i < v.len()
        invariant
            0 <= i <= v@.len(),
            out@ == head + bqs_cat(bqs_views(v@).take(i as int)),
        decreases v@.len() - i,
    {
        push_bq(out, &v[i]);
        proof {
            lemma_bqs_step(bqs_views(v@), i as int);
            assert(bqs_views(v@)[i as int] == bq_view(v@[i as int]));
        }
        i += 1;
        assert(out@ =~= head + bqs_cat(bqs_views(v@).take(i as int)));
    }
    assert(bqs_views(v@).take(i as int) =~= bqs_views(v@));
}


// ---- the snapshot ----------------------------------------------------------

/// Views of lexical postings.
pub open spec fn plain_terms(v: Seq<(String, Vec<(String, u32)>)>) -> Seq<(Seq<char>, Seq<(Seq<char>, u32)>)> {
    v.map_values(|t: (String, Vec<(String, u32)>)| (t.0@, doclens_views(t.1@)))
}

impl View for IndexSnapshot {
    type V = IdxModel;

    open spec fn view(&self) -> IdxModel {
        IdxModel {
            art_keys: keys_views(self.art_keys@),
            entity_index: ents_views(self.entity_index@),
            indexed_dims: self.indexed_dims@,
            corpus_counts: self.corpus_counts@,
            bq_words_per_vec: self.bq_words_per_vec,
            bq_live: self.bq_live,
            fingerprint: self.fingerprint,
            written_at: self.written_at,
            lexical_postings: plain_terms(self.lexical_postings@),
            lexical_doc_len: doclens_views(self.lexical_doc_len@),
            lexical_n_docs: self.lexical_n_docs,
            bq_entries: bqs_views(self.bq_entries@),
        }
    }
}

/// The magic as bytes.
pub open spec fn idx_magic() -> Seq<u8> {
    seq![73u8, 68u8, 88u8, 49u8]
}

/// Fixed head: magic, version, fingerprint, write tick, width, live count.
pub open spec fn raw_head(w: IdxRaw) -> Seq<u8> {
    idx_magic() + seq![1u8] + spec_u64_to_le_bytes(w.fingerprint) + spec_u64_to_le_bytes(w.written_at)
        + spec_u32_to_le_bytes(w.bq_words_per_vec) + spec_u64_to_le_bytes(w.bq_live)
}

/// Bytes of a snapshot: the head, then each counted list in turn (the
/// lexical document count between the document lengths and the vectors).
pub open spec fn raw_wire(w: IdxRaw) -> Seq<u8> {
    raw_head(w) + dims_sec(w.indexed_dims) + counts_sec(w.corpus_counts) + keys_sec(w.art_keys) + ents_sec(
        w.entity_index,
    ) + terms_sec(w.lexical_postings) + doclens_sec(w.lexical_doc_len) + spec_u32_to_le_bytes(
        w.lexical_n_docs,
    ) + bqs_sec(w.bq_entries)
}

/// What the decoder accepts: list lengths and items within their bounds,
/// and as many indexed dimensions as counted ones, each counted dimension
/// being indexed.
pub open spec fn raw_ok(w: IdxRaw) -> bool {
    &&& w.indexed_dims.len() <= MAX_EMBEDDING_DIM && dims_all_ok(w.indexed_dims)
    &&& w.corpus_counts.len() <= MAX_EMBEDDING_DIM && counts_all_ok(w.corpus_counts)
    &&& w.art_keys.len() <= MAX_SNAPSHOT_KEYS && keys_all_ok(w.art_keys)
    &&& w.entity_index.len() <= u32::MAX && ents_all_ok(w.entity_index)
    &&& w.lexical_postings.len() <= u32::MAX && terms_all_ok(w.lexical_postings)
    &&& w.lexical_doc_len.len() <= u32::MAX && doclens_all_ok(w.lexical_doc_len)
    &&& w.bq_entries.len() <= u32::MAX && bqs_all_ok(w.bq_entries)
    &&& w.indexed_dims.len() == w.corpus_counts.len()
    &&& forall|i: int| 0 <= i < w.corpus_counts.len() ==> w.indexed_dims.contains(#[trigger] w.corpus_counts[i].0)
}

/// Postings without their escape flags.
pub open spec fn strip_postings(ps: Seq<(Seq<char>, Seq<(Seq<char>, u32, bool)>)>) -> Seq<(Seq<char>, Seq<(Seq<char>, u32)>)> {
    ps.map_values(|t: (Seq<char>, Seq<(Seq<char>, u32, bool)>)| (t.0, t.1.map_values(|d: (Seq<char>, u32, bool)| (d.0, d.1))))
}

/// Postings with the encoder's escape flags (escaped from 255 up).
pub open spec fn canon_postings(ps: Seq<(Seq<char>, Seq<(Seq<char>, u32)>)>) -> Seq<(Seq<char>, Seq<(Seq<char>, u32, bool)>)> {
    ps.map_values(|t: (Seq<char>, Seq<(Seq<char>, u32)>)| (t.0, t.1.map_values(|d: (Seq<char>, u32)| (d.0, d.1, d.1 >= 255))))
}

/// The snapshot a wire form holds.
pub open spec fn strip(w: IdxRaw) -> IdxModel {
    IdxModel {
        art_keys: w.art_keys,
        entity_index: w.entity_index,
        indexed_dims: w.indexed_dims,
        corpus_counts: w.corpus_counts,
        bq_words_per_vec: w.bq_words_per_vec,
        bq_live: w.bq_live,
        fingerprint: w.fingerprint,
        written_at: w.written_at,
        lexical_postings: strip_postings(w.lexical_postings),
        lexical_doc_len: w.lexical_doc_len,
        lexical_n_docs: w.lexical_n_docs,
        bq_entries: w.bq_entries,
    }
}

/// The wire form the encoder gives a snapshot.
pub open spec fn canon(m: IdxModel) -> IdxRaw {
    IdxRaw {
        art_keys: m.art_keys,
        entity_index: m.entity_index,
        indexed_dims: m.indexed_dims,
        corpus_counts: m.corpus_counts,
        bq_words_per_vec: m.bq_words_per_vec,
        bq_live: m.bq_live,
        fingerprint: m.fingerprint,
        written_at: m.written_at,
        lexical_postings: canon_postings(m.lexical_postings),
        lexical_doc_len: m.lexical_doc_len,
        lexical_n_docs: m.lexical_n_docs,
        bq_entries: m.bq_entries,
    }
}

/// A snapshot that survives encoding: its wire form is one the decoder
/// accepts (its lists and strings fit their length fields).
pub open spec fn idx_ok(m: IdxModel) -> bool {
    raw_ok(canon(m))
}

proof fn lemma_terms_canon(v: Seq<(String, Vec<(String, u32)>)>)
    ensures
        terms_canon(v) == canon_postings(plain_terms(v)),
{
    assert forall|i: int| 0 <= i < v.len() implies #[trigger] terms_canon(v)[i] == canon_postings(plain_terms(v))[i] by {
        assert(pdocs_canon(v[i].1@) =~= doclens_views(v[i].1@).map_values(|d: (Seq<char>, u32)| (d.0, d.1, d.1 >= 255)));
    }
    assert(terms_canon(v) =~= canon_postings(plain_terms(v)));
}

proof fn lemma_raw_head(d: Seq<u8>, w: IdxRaw)
    ensures
        bytes_at(d, 0, raw_head(w)) <==> (d.len() >= 33 && d.subrange(0, 4) == idx_magic() && d[4] == 1
            && d.subrange(5, 13) == spec_u64_to_le_bytes(w.fingerprint) && d.subrange(13, 21)
            == spec_u64_to_le_bytes(w.written_at) && d.subrange(21, 25) == spec_u32_to_le_bytes(
            w.bq_words_per_vec,
        ) && d.subrange(25, 33) == spec_u64_to_le_bytes(w.bq_live)),
{
    lemma_le_bytes_roundtrip();
    let h = raw_head(w);
    assert(h.len() == 33);
    assert(h.subrange(0, 4) =~= idx_magic());
    assert(h.subrange(5, 13) =~= spec_u64_to_le_bytes(w.fingerprint));
    assert(h.subrange(13, 21) =~= spec_u64_to_le_bytes(w.written_at));
    assert(h.subrange(21, 25) =~= spec_u32_to_le_bytes(w.bq_words_per_vec));
    assert(h.subrange(25, 33) =~= spec_u64_to_le_bytes(w.bq_live));
    assert(h[4] == 1);
    if bytes_at(d, 0, h) {
        assert(d.subrange(0, 33) == h);
        assert(d.subrange(0, 4) =~= h.subrange(0, 4));
        assert(d.subrange(5, 13) =~= h.subrange(5, 13));
        assert(d.subrange(13, 21) =~= h.subrange(13, 21));
        assert(d.subrange(21, 25) =~= h.subrange(21, 25));
        assert(d.subrange(25, 33) =~= h.subrange(25, 33));
        assert(d[4] == h[4]);
    }
    if d.len() >= 33 && d.subrange(0, 4) == idx_magic() && d[4] == 1 && d.subrange(5, 13)
        == spec_u64_to_le_bytes(w.fingerprint) && d.subrange(13, 21) == spec_u64_to_le_bytes(w.written_at)
        && d.subrange(21, 25) == spec_u32_to_le_bytes(w.bq_words_per_vec) && d.subrange(25, 33)
        == spec_u64_to_le_bytes(w.bq_live) {
        assert forall|i: int| 0 <= i < 33 implies d.subrange(0, 33)[i] == h[i] by {
            if i < 4 {
                assert(d.subrange(0, 4)[i] == idx_magic()[i]);
            } else if i == 4 {
            } else if i < 13 {
                assert(d.subrange(5, 13)[i - 5] == h.subrange(5, 13)[i - 5]);
            } else if i < 21 {
                assert(d.subrange(13, 21)[i - 13] == h.subrange(13, 21)[i - 13]);
            } else if i < 25 {
                assert(d.subrange(21, 25)[i - 21] == h.subrange(21, 25)[i - 21]);
            } else {
                assert(d.subrange(25, 33)[i - 25] == h.subrange(25, 33)[i - 25]);
            }
        }
        assert(d.subrange(0, 33) =~= h);
    }
}

/// The parts of a snapshot's bytes, each where the previous one ends.
proof fn lemma_raw_layout(d: Seq<u8>, w: IdxRaw)
    ensures
        bytes_at(d, 0, raw_wire(w)) <==> ({
            let o1: int = 33 + dims_sec(w.indexed_dims).len() as int;
            let o2: int = o1 + counts_sec(w.corpus_counts).len();
            let o3: int = o2 + keys_sec(w.art_keys).len();
            let o4: int = o3 + ents_sec(w.entity_index).len();
            let o5: int = o4 + terms_sec(w.lexical_postings).len();
            let o6: int = o5 + doclens_sec(w.lexical_doc_len).len();
            &&& bytes_at(d, 0, raw_head(w))
            &&& bytes_at(d, 33, dims_sec(w.indexed_dims))
            &&& bytes_at(d, o1, counts_sec(w.corpus_counts))
            &&& bytes_at(d, o2, keys_sec(w.art_keys))
            &&& bytes_at(d, o3, ents_sec(w.entity_index))
            &&& bytes_at(d, o4, terms_sec(w.lexical_postings))
            &&& bytes_at(d, o5, doclens_sec(w.lexical_doc_len))
            &&& bytes_at(d, o6, spec_u32_to_le_bytes(w.lexical_n_docs))
            &&& bytes_at(d, o6 + 4, bqs_sec(w.bq_entries))
        }),
{
    lemma_le_bytes_roundtrip();
    let p0 = raw_head(w);
    let p1 = p0 + dims_sec(w.indexed_dims);
    let p2 = p1 + counts_sec(w.corpus_counts);
    let p3 = p2 + keys_sec(w.art_keys);
    let p4 = p3 + ents_sec(w.entity_index);
    let p5 = p4 + terms_sec(w.lexical_postings);
    let p6 = p5 + doclens_sec(w.lexical_doc_len);
    let p7 = p6 + spec_u32_to_le_bytes(w.lexical_n_docs);
    assert(p0.len() == 33);
    lemma_bytes_at_concat(d, 0, p7, bqs_sec(w.bq_entries));
    lemma_bytes_at_concat(d, 0, p6, spec_u32_to_le_bytes(w.lexical_n_docs));
    lemma_bytes_at_concat(d, 0, p5, doclens_sec(w.lexical_doc_len));
    lemma_bytes_at_concat(d, 0, p4, terms_sec(w.lexical_postings));
    lemma_bytes_at_concat(d, 0, p3, ents_sec(w.entity_index));
    lemma_bytes_at_concat(d, 0, p2, keys_sec(w.art_keys));
    lemma_bytes_at_concat(d, 0, p1, counts_sec(w.corpus_counts));
    lemma_bytes_at_concat(d, 0, p0, dims_sec(w.indexed_dims));
}

/// Postings without their escape flags, as an executable conversion.
fn strip_terms(v: &Vec<(String, Vec<(String, u32, bool)>)>) -> (r: Vec<(String, Vec<(String, u32)>)>)
    ensures
        plain_terms(r@) == strip_postings(terms_views(v@)),
{
    let mut out: Vec<(String, Vec<(String, u32)>)> = Vec::new();
    let mut i: usize = 0;
    while i < v.len()
        invariant
            0 <= i <= v@.len(),
            plain_terms(out@) == strip_postings(terms_views(v@)).take(i as int),
        decreases v@.len() - i,
    {
        let ds = &v[i].1;
        let mut inner: Vec<(String, u32)> = Vec::new();
        let mut j: usize = 0;
        while j < ds.len()
            invariant
                0 <= j <= ds@.len(),
                ds == v@[i as int].1,
                doclens_views(inner@) == pdocs_views(ds@).take(j as int).map_values(|d: (Seq<char>, u32, bool)| (d.0, d.1)),
            decreases ds@.len() - j,
        {
            let ghost old_inner = inner@;
            let item = (ds[j].0.clone(), ds[j].1);
            inner.push(item);
            proof {
                assert(doclen_view(item) == (pdocs_views(ds@)[j as int].0, pdocs_views(ds@)[j as int].1));
                assert(doclens_views(inner@) =~= doclens_views(old_inner).push(doclen_view(item)));
                assert(doclens_views(inner@) =~= pdocs_views(ds@).take(j + 1).map_values(
                    |d: (Seq<char>, u32, bool)| (d.0, d.1),
                ));
            }
            j += 1;
        }
        proof {
            assert(pdocs_views(ds@).take(j as int) =~= pdocs_views(ds@));
        }
        let name = v[i].0.clone();
        let ghost old_out = out@;
        out.push((name, inner));
        proof {
            assert(plain_terms(out@) =~= plain_terms(old_out).push((name@, doclens_views(inner@))));
            assert(strip_postings(terms_views(v@))[i as int] =~~= (name@, doclens_views(inner@)));
            assert(plain_terms(out@) =~= strip_postings(terms_views(v@)).take(i + 1));
        }
        i += 1;
    }
    proof {
        assert(strip_postings(terms_views(v@)).take(i as int) =~= strip_postings(terms_views(v@)));
    }
    out
}


fn push_dims_sec(out: &mut Vec<u8>, v: &Vec<usize>)
    ensures
        final(out)@ == old(out)@ + dims_sec(dims_views(v@)),
{
    push_u32(out, v.len() as u32);
    push_dims_list(out, v);
    assert(final(out)@ =~= old(out)@ + dims_sec(dims_views(v@)));
}

fn push_counts_sec(out: &mut Vec<u8>, v: &Vec<(usize, u64)>)
    ensures
        final(out)@ == old(out)@ + counts_sec(counts_views(v@)),
{
    push_u32(out, v.len() as u32);
    push_counts_list(out, v);
    assert(final(out)@ =~= old(out)@ + counts_sec(counts_views(v@)));
}

fn push_keys_sec(out: &mut Vec<u8>, v: &Vec<String>)
    ensures
        final(out)@ == old(out)@ + keys_sec(keys_views(v@)),
{
    push_u32(out, v.len() as u32);
    push_keys_list(out, v);
    assert(final(out)@ =~= old(out)@ + keys_sec(keys_views(v@)));
}

fn push_ents_sec(out: &mut Vec<u8>, v: &Vec<(String, Vec<String>)>)
    ensures
        final(out)@ == old(out)@ + ents_sec(ents_views(v@)),
{
    push_u32(out, v.len() as u32);
    push_ents_list(out, v);
    assert(final(out)@ =~= old(out)@ + ents_sec(ents_views(v@)));
}

fn push_terms_canon_sec(out: &mut Vec<u8>, v: &Vec<(String, Vec<(String, u32)>)>)
    ensures
        final(out)@ == old(out)@ + terms_sec(terms_canon(v@)),
{
    push_u32(out, v.len() as u32);
    push_terms_canon_list(out, v);
    assert(final(out)@ =~= old(out)@ + terms_sec(terms_canon(v@)));
}

fn push_doclens_sec(out: &mut Vec<u8>, v: &Vec<(String, u32)>)
    ensures
        final(out)@ == old(out)@ + doclens_sec(doclens_views(v@)),
{
    push_u32(out, v.len() as u32);
    push_doclens_list(out, v);
    assert(final(out)@ =~= old(out)@ + doclens_sec(doclens_views(v@)));
}

fn push_bqs_sec(out: &mut Vec<u8>, v: &Vec<(String, Vec<u64>)>)
    ensures
        final(out)@ == old(out)@ + bqs_sec(bqs_views(v@)),
{
    push_u32(out, v.len() as u32);
    push_bqs_list(out, v);
    assert(final(out)@ =~= old(out)@ + bqs_sec(bqs_views(v@)));
}

impl IndexSnapshot {
    /// Bytes of the snapshot (list lengths and dimensions are cut to their
    /// field widths; term frequencies from 255 up are written escaped).
    pub fn encode(&self) -> (r: Vec<u8>)
        ensures
            r@ == raw_wire(canon(self@)),
    {
        let mut out: Vec<u8> = Vec::new();
        out.push(73u8);
        out.push(68u8);
        out.push(88u8);
        out.push(49u8);
        out.push(IDX_VERSION);
        push_u64(&mut out, self.fingerprint);
        push_u64(&mut out, self.written_at);
        push_u32(&mut out, self.bq_words_per_vec);
        push_u64(&mut out, self.bq_live);
        proof {
            assert(out@ =~= raw_head(canon(self@)));
        }
        push_dims_sec(&mut out, &self.indexed_dims);
        push_counts_sec(&mut out, &self.corpus_counts);
        push_keys_sec(&mut out, &self.art_keys);
        push_ents_sec(&mut out, &self.entity_index);
        push_terms_canon_sec(&mut out, &self.lexical_postings);
        push_doclens_sec(&mut out, &self.lexical_doc_len);
        push_u32(&mut out, self.lexical_n_docs);
        push_bqs_sec(&mut out, &self.bq_entries);
        proof {
            lemma_terms_canon(self.lexical_postings@);
            assert(dims_views(self.indexed_dims@) =~= self.indexed_dims@);
            assert(counts_views(self.corpus_counts@) =~= self.corpus_counts@);
            assert(out@ =~= raw_wire(canon(self@)));
        }
        out
    }
}


fn contains_dim(v: &Vec<usize>, x: usize) -> (r: bool)
    ensures
        r == v@.contains(x),
{
    let mut i: usize = 0;
    while i < v.len()
        invariant
            0 <= i <= v@.len(),
            forall|j: int| 0 <= j < i ==> v@[j] != x,
        decreases v@.len() - i,
    {
        if v[i] == x {
            return true;
        }
        i += 1;
    }
    false
}

impl IndexSnapshot {
    /// Reads a snapshot. Magic and version are checked first; every length
    /// and offset is bounds-checked and the dimension lists must agree, so
    /// malformed, truncated or incoherent input gives an error and never a
    /// panic. Bytes past the last list are ignored.
    #[verifier::loop_isolation(false)]
    #[verifier::rlimit(80)]
    #[verifier::spinoff_prover]
    pub fn decode(data: &[u8]) -> (r: Result<Self, &'static str>)
        ensures
            data@.len() < 25 || data@.subrange(0, 4) != idx_magic() ==> r == Err::<Self, &'static str>(
                "bad idx magic",
            ),
            data@.len() >= 25 && data@.subrange(0, 4) == idx_magic() && data@[4] != 1 ==> r == Err::<
                Self,
                &'static str,
            >("bad idx version"),
            r matches Ok(s) ==> exists|w: IdxRaw|
                raw_ok(w) && strip(w) == s@ && #[trigger] bytes_at(data@, 0, raw_wire(w)),
            forall|w: IdxRaw| raw_ok(w) && #[trigger] bytes_at(data@, 0, raw_wire(w)) ==> (r matches Ok(s) && s@ == strip(w)),
    {
        let dlen = data.len();
        proof {
            lemma_le_bytes_roundtrip();
        }
        if data.len() < 25 || data[0] != 73 || data[1] != 68 || data[2] != 88 || data[3] != 49 {
            proof {
                if data@.len() >= 25 {
                    assert(data@.subrange(0, 4) != idx_magic()) by {
                        assert(data@.subrange(0, 4)[0] == data@[0]);
                        assert(data@.subrange(0, 4)[1] == data@[1]);
                        assert(data@.subrange(0, 4)[2] == data@[2]);
                        assert(data@.subrange(0, 4)[3] == data@[3]);
                    }
                }
                assert forall|w: IdxRaw| raw_ok(w) && #[trigger] bytes_at(data@, 0, raw_wire(w)) implies false by {
                    lemma_raw_layout(data@, w);
                    lemma_raw_head(data@, w);
                    assert(data@.subrange(0, 4)[0] == data@[0]);
                    assert(data@.subrange(0, 4)[1] == data@[1]);
                    assert(data@.subrange(0, 4)[2] == data@[2]);
                    assert(data@.subrange(0, 4)[3] == data@[3]);
                }
            }
            return Err("bad idx magic");
        }
        proof {
            assert(data@.subrange(0, 4) =~= idx_magic());
        }
        if data[4] != IDX_VERSION {
                proof {
                    assert forall|w: IdxRaw| raw_ok(w) && #[trigger] bytes_at(data@, 0, raw_wire(w)) implies false by {
                        lemma_raw_layout(data@, w);
                        lemma_raw_head(data@, w);
                    }
                }
            return Err("bad idx version");
        }
        let fingerprint = match rd_u64(data, 5) {
            Some(x) => x,
            None => {
                proof {
                    assert forall|w: IdxRaw| raw_ok(w) && #[trigger] bytes_at(data@, 0, raw_wire(w)) implies false by {
                        lemma_raw_layout(data@, w);
                        lemma_raw_head(data@, w);
                    }
                }
                return Err("trunc fp");
            },
        };
        let written_at = match rd_u64(data, 13) {
            Some(x) => x,
            None => {
                proof {
                    assert forall|w: IdxRaw| raw_ok(w) && #[trigger] bytes_at(data@, 0, raw_wire(w)) implies false by {
                        lemma_raw_layout(data@, w);
                        lemma_raw_head(data@, w);
                    }
                }
                return Err("trunc ts");
            },
        };
        let bq_words_per_vec = match rd_u32(data, 21) {
            Some(x) => x,
            None => {
                proof {
                    assert forall|w: IdxRaw| raw_ok(w) && #[trigger] bytes_at(data@, 0, raw_wire(w)) implies false by {
                        lemma_raw_layout(data@, w);
                        lemma_raw_head(data@, w);
                    }
                }
                return Err("trunc wpv");
            },
        };
        let bq_live = match rd_u64(data, 25) {
            Some(x) => x,
            None => {
                proof {
                    assert forall|w: IdxRaw| raw_ok(w) && #[trigger] bytes_at(data@, 0, raw_wire(w)) implies false by {
                        lemma_raw_layout(data@, w);
                        lemma_raw_head(data@, w);
                    }
                }
                return Err("trunc live");
            },
        };
        proof {
            assert forall|w: IdxRaw| raw_ok(w) && #[trigger] bytes_at(data@, 0, raw_wire(w)) implies w.fingerprint == fingerprint && w.written_at
                == written_at && w.bq_words_per_vec == bq_words_per_vec && w.bq_live == bq_live by {
                lemma_raw_layout(data@, w);
                lemma_raw_head(data@, w);
            }
        }
        let (dims, o1) = match read_dims_sec(data, 33) {
            Ok(x) => x,
            Err(e) => {
                proof {
                    assert forall|w: IdxRaw| raw_ok(w) && #[trigger] bytes_at(data@, 0, raw_wire(w)) implies false by {
                        lemma_raw_layout(data@, w);
                        lemma_raw_head(data@, w);
                    }
                }
                return Err(e);
            },
        };
        proof {
            assert forall|w: IdxRaw| raw_ok(w) && #[trigger] bytes_at(data@, 0, raw_wire(w)) implies w.indexed_dims == dims_views(dims@) && o1 == 33 + dims_sec(w.indexed_dims).len() by {
                lemma_raw_layout(data@, w);
            }
        }
        let (counts, o2) = match read_counts_sec(data, o1) {
            Ok(x) => x,
            Err(e) => {
                proof {
                    assert forall|w: IdxRaw| raw_ok(w) && #[trigger] bytes_at(data@, 0, raw_wire(w)) implies false by {
                        lemma_raw_layout(data@, w);
                        lemma_raw_head(data@, w);
                    }
                }
                return Err(e);
            },
        };
        proof {
            assert forall|w: IdxRaw| raw_ok(w) && #[trigger] bytes_at(data@, 0, raw_wire(w)) implies w.corpus_counts == counts_views(counts@) && o2 == o1 + counts_sec(w.corpus_counts).len() by {
                lemma_raw_layout(data@, w);
            }
        }
        let (keys, o3) = match read_keys_sec(data, o2) {
            Ok(x) => x,
            Err(e) => {
                proof {
                    assert forall|w: IdxRaw| raw_ok(w) && #[trigger] bytes_at(data@, 0, raw_wire(w)) implies false by {
                        lemma_raw_layout(data@, w);
                        lemma_raw_head(data@, w);
                    }
                }
                return Err(e);
            },
        };
        proof {
            assert forall|w: IdxRaw| raw_ok(w) && #[trigger] bytes_at(data@, 0, raw_wire(w)) implies w.art_keys == keys_views(keys@) && o3 == o2 + keys_sec(w.art_keys).len() by {
                lemma_raw_layout(data@, w);
            }
        }
        let (ents, o4) = match read_ents_sec(data, o3) {
            Ok(x) => x,
            Err(e) => {
                proof {
                    assert forall|w: IdxRaw| raw_ok(w) && #[trigger] bytes_at(data@, 0, raw_wire(w)) implies false by {
                        lemma_raw_layout(data@, w);
                        lemma_raw_head(data@, w);
                    }
                }
                return Err(e);
            },
        };
        proof {
            assert forall|w: IdxRaw| raw_ok(w) && #[trigger] bytes_at(data@, 0, raw_wire(w)) implies w.entity_index == ents_views(ents@) && o4 == o3 + ents_sec(w.entity_index).len() by {
                lemma_raw_layout(data@, w);
            }
        }
        let (terms, o5) = match read_terms_sec(data, o4) {
            Ok(x) => x,
            Err(e) => {
                proof {
                    assert forall|w: IdxRaw| raw_ok(w) && #[trigger] bytes_at(data@, 0, raw_wire(w)) implies false by {
                        lemma_raw_layout(data@, w);
                        lemma_raw_head(data@, w);
                    }
                }
                return Err(e);
            },
        };
        proof {
            assert forall|w: IdxRaw| raw_ok(w) && #[trigger] bytes_at(data@, 0, raw_wire(w)) implies w.lexical_postings == terms_views(terms@) && o5 == o4 + terms_sec(w.lexical_postings).len() by {
                lemma_raw_layout(data@, w);
            }
        }
        let (doclens, o6) = match read_doclens_sec(data, o5) {
            Ok(x) => x,
            Err(e) => {
                proof {
                    assert forall|w: IdxRaw| raw_ok(w) && #[trigger] bytes_at(data@, 0, raw_wire(w)) implies false by {
                        lemma_raw_layout(data@, w);
                        lemma_raw_head(data@, w);
                    }
                }
                return Err(e);
            },
        };
        proof {
            assert forall|w: IdxRaw| raw_ok(w) && #[trigger] bytes_at(data@, 0, raw_wire(w)) implies w.lexical_doc_len == doclens_views(doclens@) && o6 == o5 + doclens_sec(w.lexical_doc_len).len() by {
                lemma_raw_layout(data@, w);
            }
        }
        let n_docs = match rd_u32(data, o6) {
            Some(x) => x,
            None => {
                proof {
                    assert forall|w: IdxRaw| raw_ok(w) && #[trigger] bytes_at(data@, 0, raw_wire(w)) implies false by {
                        lemma_raw_layout(data@, w);
                        lemma_raw_head(data@, w);
                    }
                }
                return Err("trunc ndocs_lex");
            },
        };
        proof {
            assert forall|w: IdxRaw| raw_ok(w) && #[trigger] bytes_at(data@, 0, raw_wire(w)) implies w.lexical_n_docs == n_docs by {
                lemma_raw_layout(data@, w);
                assert(data@.subrange(o6 as int, o6 + 4) == spec_u32_to_le_bytes(w.lexical_n_docs));
            }
        }
        let (bqs, o8) = match read_bqs_sec(data, o6 + 4) {
            Ok(x) => x,
            Err(e) => {
                proof {
                    assert forall|w: IdxRaw| raw_ok(w) && #[trigger] bytes_at(data@, 0, raw_wire(w)) implies false by {
                        lemma_raw_layout(data@, w);
                        lemma_raw_head(data@, w);
                    }
                }
                return Err(e);
            },
        };
        proof {
            assert forall|w: IdxRaw| raw_ok(w) && #[trigger] bytes_at(data@, 0, raw_wire(w)) implies w.bq_entries == bqs_views(bqs@) && o8 == o6 + 4 + bqs_sec(w.bq_entries).len() by {
                lemma_raw_layout(data@, w);
            }
        }
        if dims.len() != counts.len() {
                proof {
                    assert forall|w: IdxRaw| raw_ok(w) && #[trigger] bytes_at(data@, 0, raw_wire(w)) implies false by {
                        lemma_raw_layout(data@, w);
                        lemma_raw_head(data@, w);
                    }
                }
            return Err("dims/counts mismatch");
        }
        let mut i: usize = 0;
        while i < counts.len()
            invariant
                0 <= i <= counts@.len(),
                forall|j: int| 0 <= j < i ==> dims@.contains(#[trigger] counts@[j].0),
            decreases counts@.len() - i,
        {
            if !contains_dim(&dims, counts[i].0) {
                proof {
                    assert forall|w: IdxRaw| raw_ok(w) && #[trigger] bytes_at(data@, 0, raw_wire(w)) implies false by {
                        lemma_raw_layout(data@, w);
                        assert(w.corpus_counts == counts_views(counts@));
                        assert(w.corpus_counts[i as int].0 == counts@[i as int].0);
                        assert(dims_views(dims@) =~= dims@);
                    }
                }
                return Err("count dim not in dims");
            }
            i += 1;
        }
        let postings = strip_terms(&terms);
        let ghost w0 = IdxRaw {
            art_keys: keys_views(keys@),
            entity_index: ents_views(ents@),
            indexed_dims: dims_views(dims@),
            corpus_counts: counts_views(counts@),
            bq_words_per_vec,
            bq_live,
            fingerprint,
            written_at,
            lexical_postings: terms_views(terms@),
            lexical_doc_len: doclens_views(doclens@),
            lexical_n_docs: n_docs,
            bq_entries: bqs_views(bqs@),
        };
        proof {
            assert(dims_views(dims@) =~= dims@);
            assert(counts_views(counts@) =~= counts@);
            assert(data@.subrange(5, 13) == spec_u64_to_le_bytes(fingerprint));
            assert(data@.subrange(13, 21) == spec_u64_to_le_bytes(written_at));
            assert(data@.subrange(21, 25) == spec_u32_to_le_bytes(bq_words_per_vec));
            assert(data@.subrange(25, 33) == spec_u64_to_le_bytes(bq_live));
            assert(data@.subrange(o6 as int, o6 + 4) == spec_u32_to_le_bytes(n_docs));
            lemma_raw_head(data@, w0);
            lemma_raw_layout(data@, w0);
            assert(raw_ok(w0)) by {
                assert forall|j: int| 0 <= j < w0.corpus_counts.len() implies w0.indexed_dims.contains(
                    #[trigger] w0.corpus_counts[j].0,
                ) by {
                    assert(dims@.contains(counts@[j].0));
                }
            }
            assert(bytes_at(data@, 0, raw_wire(w0)));
        }
        let s = IndexSnapshot {
            art_keys: keys,
            entity_index: ents,
            indexed_dims: dims,
            corpus_counts: counts,
            bq_words_per_vec,
            bq_live,
            fingerprint,
            written_at,
            lexical_postings: postings,
            lexical_doc_len: doclens,
            lexical_n_docs: n_docs,
            bq_entries: bqs,
        };
        proof {
            assert(s@ == strip(w0));
            assert forall|w: IdxRaw| raw_ok(w) && #[trigger] bytes_at(data@, 0, raw_wire(w)) implies s@ == strip(w) by {
                assert(w == w0);
            }
        }
        Ok(s)
    }
}

/// Encoding then decoding gives the snapshot back, for every snapshot whose
/// lists fit their bounds: the encoder's wire form is accepted by the
/// decoder and holds the snapshot.
pub proof fn law_idx_roundtrip(m: IdxModel)
    requires
        idx_ok(m),
    ensures
        raw_ok(canon(m)),
        strip(canon(m)) == m,
        bytes_at(raw_wire(canon(m)), 0, raw_wire(canon(m))),
{
    let x = raw_wire(canon(m));
    assert(x.subrange(0, x.len() as int) =~= x);
    assert forall|i: int| 0 <= i < m.lexical_postings.len() implies #[trigger] strip_postings(canon_postings(m.lexical_postings))[i]
        == m.lexical_postings[i] by {
        assert(canon_postings(m.lexical_postings)[i].1.map_values(|d: (Seq<char>, u32, bool)| (d.0, d.1)) =~= m.lexical_postings[i].1);
    }
    assert(strip_postings(canon_postings(m.lexical_postings)) =~= m.lexical_postings);
}

} // verus!
