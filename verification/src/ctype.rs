//! Payload typing of hits: what datum a payload carries and which retrieval
//! path produced a hit. The type is a hint derived when reading.
use vstd::prelude::*;
use vstd::string::StringSliceAdditionalSpecFns;
use vstd::utf8::{decode_utf8, valid_utf8};
use crate::lexical::ascii_lower;
use crate::text::{chars_of, same_text, utf8_str};

verus! {

/// What datum a payload carries.
#[derive(Clone, Copy, Debug, PartialEq, Eq, Structural)]
pub enum ContentType {
    /// Prose or verbatim text.
    Text,
    /// A JSON object or array.
    Json,
    /// Source code (a heuristic hint).
    Code,
    /// An `f32` embedding of the given dimension.
    Embedding(u32),
    /// Bytes that are not UTF-8.
    Binary,
}

/// Retrieval path that produced a hit.
#[derive(Clone, Copy, Debug, PartialEq, Eq, Structural)]
pub enum RecallPath {
    Semantic,
    Lexical,
    Entities,
}

/// `char::is_whitespace`: Unicode's `White_Space` property.
pub uninterp spec fn unicode_whitespace(c: char) -> bool;

/// `char::is_whitespace`: whether the character has Unicode's `White_Space`
/// property (the table is std's).
#[verifier::external_body]
fn is_whitespace(c: char) -> (r: bool)
    ensures
        r == unicode_whitespace(c),
{
    c.is_whitespace()
}

/// Drops leading whitespace.
pub open spec fn trim_lead(s: Seq<char>) -> Seq<char>
    decreases s.len(),
{
    if s.len() > 0 && unicode_whitespace(s[0]) {
        trim_lead(s.drop_first())
    } else {
        s
    }
}

/// Drops trailing whitespace.
pub open spec fn trim_trail(s: Seq<char>) -> Seq<char>
    decreases s.len(),
{
    if s.len() > 0 && unicode_whitespace(s.last()) {
        trim_trail(s.drop_last())
    } else {
        s
    }
}

/// The text without leading and trailing whitespace.
pub open spec fn trimmed(s: Seq<char>) -> Seq<char> {
    trim_trail(trim_lead(s))
}

/// `w` occurs in `s` at `i`.
pub open spec fn occurs_at(s: Seq<char>, w: Seq<char>, i: int) -> bool {
    0 <= i && i + w.len() <= s.len() && s.subrange(i, i + w.len()) == w
}

/// `w` occurs somewhere in `s`.
pub open spec fn occurs(s: Seq<char>, w: Seq<char>) -> bool {
    exists|i: int| occurs_at(s, w, i)
}

/// The keywords of the code heuristic.
pub open spec fn code_keywords() -> Seq<Seq<char>> {
    seq![
        seq!['f', 'n', ' '],
        seq!['i', 'm', 'p', 'l', ' '],
        seq!['s', 't', 'r', 'u', 'c', 't', ' '],
        seq!['e', 'n', 'u', 'm', ' '],
        seq!['t', 'r', 'a', 'i', 't', ' '],
        seq!['d', 'e', 'f', ' '],
        seq!['c', 'l', 'a', 's', 's', ' '],
        seq!['f', 'u', 'n', 'c', ' '],
        seq!['f', 'u', 'n', 'c', 't', 'i', 'o', 'n', ' '],
        seq!['r', 'e', 't', 'u', 'r', 'n', ' '],
        seq!['=', '>', ' '],
    ]
}

/// How many of the first `n` keywords occur in `low`.
pub open spec fn keyword_hits(low: Seq<char>, n: int) -> int
    decreases n,
{
    if n <= 0 {
        0
    } else {
        keyword_hits(low, n - 1) + if occurs(low, code_keywords()[n - 1]) {
            1int
        } else {
            0int
        }
    }
}

/// ASCII lower-casing of a text.
pub open spec fn lower_text(s: Seq<char>) -> Seq<char> {
    s.map_values(|c: char| ascii_lower(c))
}

/// The conservative code heuristic: one keyword (case-insensitive) and a
/// second structural signal (another keyword, a brace, a semicolon or an
/// arrow `->`). Prose without a keyword is never code.
pub open spec fn code_like(s: Seq<char>) -> bool {
    let k = keyword_hits(lower_text(s), 11);
    k >= 1 && (k >= 2 || s.contains('{') || s.contains('}') || s.contains(';') || occurs(s, seq!['-', '>']))
}

/// Delimited as a JSON object or array.
pub open spec fn json_delimited(t: Seq<char>) -> bool {
    t.len() >= 2 && ((t[0] == '{' && t.last() == '}') || (t[0] == '[' && t.last() == ']'))
}

/// Type of a payload: the declared embedding, else binary when not UTF-8,
/// else JSON, code or text by the trimmed text.
pub open spec fn content_type_of(payload: Seq<u8>, dim: Option<u32>) -> ContentType {
    match dim {
        Some(d) => ContentType::Embedding(d),
        None => if !valid_utf8(payload) {
            ContentType::Binary
        } else {
            let t = trimmed(decode_utf8(payload));
            if json_delimited(t) {
                ContentType::Json
            } else if code_like(t) {
                ContentType::Code
            } else {
                ContentType::Text
            }
        },
    }
}

fn occurs_at_exec(s: &Vec<char>, w: &[char], i: usize) -> (r: bool)
    requires
        i + w@.len() <= s@.len(),
    ensures
        r == occurs_at(s@, w@, i as int),
{
    let n = s.len();
    let mut j: usize = 0;
    while j < w.len()
        invariant
            n == s@.len(),
            i + w@.len() <= s@.len(),
            0 <= j <= w@.len(),
            s@.subrange(i as int, i + j) == w@.take(j as int),
        decreases w@.len() - j,
    {
        if s[i + j] != w[j] {
            proof {
                assert(s@.subrange(i as int, i + w@.len())[j as int] == s@[i + j]);
            }
            return false;
        }
        assert(s@.subrange(i as int, i + j + 1) =~= s@.subrange(i as int, i + j).push(s@[i + j]));
        assert(w@.take(j + 1) =~= w@.take(j as int).push(w@[j as int]));
        j += 1;
    }
    assert(w@.take(j as int) =~= w@);
    true
}

fn occurs_exec(s: &Vec<char>, w: &[char]) -> (r: bool)
    ensures
        r == occurs(s@, w@),
{
    if w.len() > s.len() {
        return false;
    }
    let m = s.len() - w.len();
    let mut i: usize = 0;
    while i < m
        invariant
            m == s@.len() - w@.len(),
            0 <= i <= m,
            forall|k: int| 0 <= k < i ==> !occurs_at(s@, w@, k),
        decreases m - i,
    {
        if occurs_at_exec(s, w, i) {
            return true;
        }
        i += 1;
    }
    if occurs_at_exec(s, w, m) {
        return true;
    }
    proof {
        assert forall|k: int| !occurs_at(s@, w@, k) by {
            if 0 <= k < i {
            }
        }
    }
    false
}

fn contains_char(s: &Vec<char>, c: char) -> (r: bool)
    ensures
        r == s@.contains(c),
{
    let mut i: usize = 0;
    while i < s.len()
        invariant
            0 <= i <= s@.len(),
            forall|k: int| 0 <= k < i ==> s@[k] != c,
        decreases s@.len() - i,
    {
        if s[i] == c {
            return true;
        }
        i += 1;
    }
    false
}

/// The keyword `i` of the heuristic.
fn keyword(i: usize) -> (r: Vec<char>)
    requires
        i < 11,
    ensures
        r@ == code_keywords()[i as int],
{
    let r = match i {
        0 => vec!['f', 'n', ' '],
        1 => vec!['i', 'm', 'p', 'l', ' '],
        2 => vec!['s', 't', 'r', 'u', 'c', 't', ' '],
        3 => vec!['e', 'n', 'u', 'm', ' '],
        4 => vec!['t', 'r', 'a', 'i', 't', ' '],
        5 => vec!['d', 'e', 'f', ' '],
        6 => vec!['c', 'l', 'a', 's', 's', ' '],
        7 => vec!['f', 'u', 'n', 'c', ' '],
        8 => vec!['f', 'u', 'n', 'c', 't', 'i', 'o', 'n', ' '],
        9 => vec!['r', 'e', 't', 'u', 'r', 'n', ' '],
        _ => vec!['=', '>', ' '],
    };
    assert(r@ =~= code_keywords()[i as int]);
    r
}

fn looks_like_code(s: &Vec<char>) -> (r: bool)
    ensures
        r == code_like(s@),
{
    let mut low: Vec<char> = Vec::new();
    let mut i: usize = 0;
    while i < s.len()
        invariant
            0 <= i <= s@.len(),
            low@ == lower_text(s@).take(i as int),
        decreases s@.len() - i,
    {
        low.push(crate::lexical::to_ascii_lower(s[i]));
        assert(low@ =~= lower_text(s@).take(i + 1));
        i += 1;
    }
    assert(low@ =~= lower_text(s@));
    let mut hits: usize = 0;
    let mut k: usize = 0;
    while k < 11
        invariant
            0 <= k <= 11,
            low@ == lower_text(s@),
            hits == keyword_hits(low@, k as int),
            hits <= k,
        decreases 11 - k,
    {
        let kw = keyword(k);
        if occurs_exec(&low, kw.as_slice()) {
            hits += 1;
        }
        k += 1;
    }
    if hits == 0 {
        return false;
    }
    let arrow: Vec<char> = vec!['-', '>'];
    proof {
        assert(arrow@ =~= seq!['-', '>']);
    }
    hits >= 2 || contains_char(s, '{') || contains_char(s, '}') || contains_char(s, ';') || occurs_exec(
        s,
        arrow.as_slice(),
    )
}

proof fn lemma_trim_lead_step(s: Seq<char>, a: int)
    requires
        0 <= a < s.len(),
        unicode_whitespace(s[a]),
    ensures
        trim_lead(s.subrange(a, s.len() as int)) == trim_lead(s.subrange(a + 1, s.len() as int)),
{
    assert(s.subrange(a, s.len() as int).drop_first() =~= s.subrange(a + 1, s.len() as int));
    assert(s.subrange(a, s.len() as int)[0] == s[a]);
}

proof fn lemma_trim_trail_step(s: Seq<char>, a: int, b: int)
    requires
        0 <= a < b <= s.len(),
        unicode_whitespace(s[b - 1]),
    ensures
        trim_trail(s.subrange(a, b)) == trim_trail(s.subrange(a, b - 1)),
{
    assert(s.subrange(a, b).drop_last() =~= s.subrange(a, b - 1));
    assert(s.subrange(a, b).last() == s[b - 1]);
}

/// The trimmed characters of a text.
fn trim_chars(v: &Vec<char>) -> (r: Vec<char>)
    ensures
        r@ == trimmed(v@),
{
    let n = v.len();
    let mut a: usize = 0;
    assert(v@.subrange(0, n as int) =~= v@);
    while a < n && is_whitespace(v[a])
        invariant
            n == v@.len(),
            0 <= a <= n,
            trim_lead(v@) == trim_lead(v@.subrange(a as int, n as int)),
        decreases n - a,
    {
        proof {
            lemma_trim_lead_step(v@, a as int);
        }
        a += 1;
    }
    proof {
        assert(v@.subrange(0, n as int) =~= v@);
        if a < n {
            assert(v@.subrange(a as int, n as int)[0] == v@[a as int]);
        }
    }
    let mut b: usize = n;
    while b > a && is_whitespace(v[b - 1])
        invariant
            n == v@.len(),
            0 <= a <= b <= n,
            trim_lead(v@) == v@.subrange(a as int, n as int),
            trimmed(v@) == trim_trail(v@.subrange(a as int, b as int)),
        decreases b - a,
    {
        proof {
            lemma_trim_trail_step(v@, a as int, b as int);
        }
        b -= 1;
    }
    proof {
        if b > a {
            assert(v@.subrange(a as int, b as int).last() == v@[b - 1]);
        }
    }
    let mut out: Vec<char> = Vec::new();
    let mut i: usize = a;
    while i < b
        invariant
            0 <= a <= i <= b <= v@.len(),
            out@ == v@.subrange(a as int, i as int),
        decreases b - i,
    {
        out.push(v[i]);
        assert(out@ =~= v@.subrange(a as int, i + 1));
        i += 1;
    }
    out
}

/// Detects the type of a payload; a declared embedding dimension wins.
pub fn detect_content_type(payload: &[u8], embedding_dim: Option<u32>) -> (r: ContentType)
    ensures
        r == content_type_of(payload@, embedding_dim),
        embedding_dim is None && valid_utf8(payload@) ==> ({
            let t = trimmed(decode_utf8(payload@));
            let low = lower_text(t);
            let kw = exists|i: int| 0 <= i < 11 && occurs(low, #[trigger] code_keywords()[i]);
            &&& !json_delimited(t) && kw && (t.contains('{') || t.contains('}') || t.contains(';') || occurs(
                t,
                seq!['-', '>'],
            )) ==> r == ContentType::Code
            &&& !kw ==> r != ContentType::Code
        }),
{
    proof {
        if valid_utf8(payload@) {
            law_code_detection(payload@);
        }
    }
    if let Some(dim) = embedding_dim {
        return ContentType::Embedding(dim);
    }
    match utf8_str(payload) {
        None => ContentType::Binary,
        Some(s) => {
            let all = chars_of(s);
            let t = trim_chars(&all);
            let n = t.len();
            if n >= 2 && ((t[0] == '{' && t[n - 1] == '}') || (t[0] == '[' && t[n - 1] == ']')) {
                return ContentType::Json;
            }
            if looks_like_code(&t) {
                return ContentType::Code;
            }
            ContentType::Text
        },
    }
}

/// Dimension of an `f32` payload: a length that is a multiple of 4, at least
/// 4 unless a bit vector is attached. Meant for L4/L5 payloads only.
pub fn embedding_dim_of(payload: &[u8], has_bitvec: bool) -> (r: Option<u32>)
    ensures
        r == (if (!has_bitvec && payload@.len() < 4) || payload@.len() % 4 != 0 {
            None::<u32>
        } else {
            Some((payload@.len() / 4) as u32)
        }),
{
    if !has_bitvec && payload.len() < 4 {
        return None;
    }
    if payload.len() % 4 != 0 {
        return None;
    }
    Some((payload.len() / 4) as u32)
}

/// `md/L4/` and `md/L5/` as bytes, by the layer digit.
pub open spec fn vector_layer_prefix(digit: u8) -> Seq<u8> {
    seq![109u8, 100u8, 47u8, 76u8, digit, 47u8]
}

/// Only L4 (semantic) and L5 (procedural) keys carry a vector.
pub open spec fn carries_embedding(key: Seq<u8>) -> bool {
    key.len() >= 6 && (key.subrange(0, 6) == vector_layer_prefix(52u8) || key.subrange(0, 6)
        == vector_layer_prefix(53u8))
}

/// Whether a storage key is an L4 or L5 document (`md/L4/`, `md/L5/`).
pub fn key_carries_embedding(storage_key: &str) -> (r: bool)
    ensures
        r == carries_embedding(storage_key.spec_bytes()),
{
    let b = storage_key.as_bytes();
    if b.len() < 6 {
        return false;
    }
    let r = b[0] == 109 && b[1] == 100 && b[2] == 47 && b[3] == 76 && (b[4] == 52 || b[4] == 53) && b[5]
        == 47;
    proof {
        let h = b@.subrange(0, 6);
        assert(h[0] == b@[0] && h[1] == b@[1] && h[2] == b@[2] && h[3] == b@[3] && h[4] == b@[4] && h[5]
            == b@[5]);
        if r {
            if b@[4] == 52 {
                assert(h =~= vector_layer_prefix(52u8));
            } else {
                assert(h =~= vector_layer_prefix(53u8));
            }
        }
    }
    r
}

/// The datum a document's payload really is, honouring its layer: an
/// embedding only for L4/L5 keys, the plain detector elsewhere.
pub fn payload_content_type(storage_key: &str, payload: &[u8], has_bitvec: bool) -> (r: ContentType)
    ensures
        r == content_type_of(
            payload@,
            if carries_embedding(storage_key.spec_bytes()) && !((!has_bitvec && payload@.len() < 4)
                || payload@.len() % 4 != 0) {
                Some((payload@.len() / 4) as u32)
            } else {
                None::<u32>
            },
        ),
{
    let dim = if key_carries_embedding(storage_key) {
        embedding_dim_of(payload, has_bitvec)
    } else {
        None
    };
    detect_content_type(payload, dim)
}

/// Stable label of a type's family.
pub open spec fn label_of(ct: ContentType) -> Seq<char> {
    match ct {
        ContentType::Text => seq!['t', 'e', 'x', 't'],
        ContentType::Json => seq!['j', 's', 'o', 'n'],
        ContentType::Code => seq!['c', 'o', 'd', 'e'],
        ContentType::Embedding(_) => seq!['e', 'm', 'b', 'e', 'd', 'd', 'i', 'n', 'g'],
        ContentType::Binary => seq!['b', 'i', 'n', 'a', 'r', 'y'],
    }
}

/// Stable label of a type (the embedding label carries no dimension).
pub fn stable_label(ct: ContentType) -> (r: &'static str)
    ensures
        r@ == label_of(ct),
{
    match ct {
        ContentType::Text => {
            proof {
                reveal_strlit("text");
            }
            "text"
        },
        ContentType::Json => {
            proof {
                reveal_strlit("json");
            }
            "json"
        },
        ContentType::Code => {
            proof {
                reveal_strlit("code");
            }
            "code"
        },
        ContentType::Embedding(_) => {
            proof {
                reveal_strlit("embedding");
            }
            "embedding"
        },
        ContentType::Binary => {
            proof {
                reveal_strlit("binary");
            }
            "binary"
        },
    }
}

/// Type of a stable label; the embedding comes back with dimension 0 (the
/// real one comes from the payload). `None` for an unknown label.
pub fn parse_stable_label(s: &str) -> (r: Option<ContentType>)
    ensures
        r matches Some(ct) ==> label_of(ct) == s@ && (ct matches ContentType::Embedding(d) ==> d == 0),
        r is None ==> forall|ct: ContentType| label_of(ct) != s@,
{
    if same_text(s, stable_label(ContentType::Text)) {
        Some(ContentType::Text)
    } else if same_text(s, stable_label(ContentType::Json)) {
        Some(ContentType::Json)
    } else if same_text(s, stable_label(ContentType::Code)) {
        Some(ContentType::Code)
    } else if same_text(s, stable_label(ContentType::Embedding(0))) {
        Some(ContentType::Embedding(0))
    } else if same_text(s, stable_label(ContentType::Binary)) {
        Some(ContentType::Binary)
    } else {
        proof {
            assert forall|ct: ContentType| label_of(ct) != s@ by {
                match ct {
                    ContentType::Embedding(d) => {
                        assert(label_of(ct) == label_of(ContentType::Embedding(0)));
                    },
                    _ => {},
                }
            }
        }
        None
    }
}

/// Text, JSON and code render verbatim as prose; embeddings and binary never.
pub fn renders_prose(ct: ContentType) -> (r: bool)
    ensures
        r == (ct is Text || ct is Json || ct is Code),
{
    match ct {
        ContentType::Text | ContentType::Json | ContentType::Code => true,
        _ => false,
    }
}


/// Keyword hits count the keywords that occur: at least one when one
/// occurs, at least two when two different ones occur, none otherwise.
proof fn lemma_keyword_hits(low: Seq<char>, n: int)
    requires
        0 <= n <= 11,
    ensures
        keyword_hits(low, n) >= 0,
        (keyword_hits(low, n) >= 1) == exists|i: int| 0 <= i < n && occurs(low, #[trigger] code_keywords()[i]),
        (exists|i: int, j: int|
            0 <= i < j < n && occurs(low, #[trigger] code_keywords()[i]) && occurs(low, #[trigger] code_keywords()[j]))
            ==> keyword_hits(low, n) >= 2,
    decreases n,
{
    if n > 0 {
        lemma_keyword_hits(low, n - 1);
        if exists|i: int, j: int|
            0 <= i < j < n && occurs(low, #[trigger] code_keywords()[i]) && occurs(low, #[trigger] code_keywords()[j]) {
            let (i, j) = choose|i: int, j: int|
                0 <= i < j < n && occurs(low, #[trigger] code_keywords()[i]) && occurs(low, #[trigger] code_keywords()[j]);
            if j < n - 1 {
                assert(exists|i2: int, j2: int|
                    0 <= i2 < j2 < n - 1 && occurs(low, #[trigger] code_keywords()[i2]) && occurs(
                        low,
                        #[trigger] code_keywords()[j2],
                    ));
            } else {
                assert(exists|i2: int| 0 <= i2 < n - 1 && occurs(low, #[trigger] code_keywords()[i2]));
            }
        }
        if exists|i: int| 0 <= i < n && occurs(low, #[trigger] code_keywords()[i]) {
            let i = choose|i: int| 0 <= i < n && occurs(low, #[trigger] code_keywords()[i]);
            if i < n - 1 {
                assert(exists|i2: int| 0 <= i2 < n - 1 && occurs(low, #[trigger] code_keywords()[i2]));
            }
        }
        if keyword_hits(low, n - 1) >= 1 {
            let i = choose|i: int| 0 <= i < n - 1 && occurs(low, #[trigger] code_keywords()[i]);
            assert(0 <= i < n && occurs(low, code_keywords()[i]));
        }
        if occurs(low, code_keywords()[n - 1]) {
            assert(0 <= n - 1 < n && occurs(low, code_keywords()[n - 1]));
        }
    }
}

/// Law: a declared embedding dimension decides the type. How a UTF-8
/// payload with no declared dimension is typed: delimited
/// as a JSON object or array (after trimming) it is JSON. Otherwise it is
/// code when its lower-cased text holds one of the code keywords and a
/// second structural signal: another keyword, a brace, a semicolon or an
/// arrow `->`; and it is never code without a keyword.
pub proof fn law_code_detection(payload: Seq<u8>)
    requires
        valid_utf8(payload),
    ensures
        forall|d: u32| content_type_of(payload, Some(d)) == ContentType::Embedding(d),
        ({
            let t = trimmed(decode_utf8(payload));
            let low = lower_text(t);
            let kw = exists|i: int| 0 <= i < 11 && occurs(low, #[trigger] code_keywords()[i]);
            let kw2 = exists|i: int, j: int|
                0 <= i < j < 11 && occurs(low, #[trigger] code_keywords()[i]) && occurs(low, #[trigger] code_keywords()[j]);
            &&& json_delimited(t) ==> content_type_of(payload, None) == ContentType::Json
            &&& !json_delimited(t) && kw && (kw2 || t.contains('{') || t.contains('}') || t.contains(';') || occurs(
                t,
                seq!['-', '>'],
            )) ==> content_type_of(payload, None) == ContentType::Code
            &&& !kw ==> content_type_of(payload, None) != ContentType::Code
        }),
{
    let t = trimmed(decode_utf8(payload));
    lemma_keyword_hits(lower_text(t), 11);
}

} // verus!
