//! Lexical path: the tokenizer of the inverted index and the index itself
//! (term postings per key, document lengths, document count).
use vstd::prelude::*;
use vstd::string::*;
use vstd::std_specs::iter::IteratorSpec;
use vstd::prelude::StringExecFns;

verus! {

/// `char::is_alphanumeric`: alphabetic or numeric in the Unicode sense.
pub uninterp spec fn unicode_alphanumeric(c: char) -> bool;

/// `char::is_alphanumeric`: whether the character is alphabetic or numeric
/// (Unicode's derived properties; the tables are std's). ASCII letters and
/// digits are alphanumeric, a space is not.
#[verifier::external_body]
fn is_alphanumeric(c: char) -> (r: bool)
    ensures
        r == unicode_alphanumeric(c),
        ('a' <= c && c <= 'z') || ('A' <= c && c <= 'Z') || ('0' <= c && c <= '9') ==> r,
        c == ' ' ==> !r,
{
    c.is_alphanumeric()
}

/// `String::push`: appends one character.
#[verifier::external_body]
pub(crate) fn push_char(s: &mut String, c: char)
    ensures
        final(s)@ == old(s)@.push(c),
{
    s.push(c)
}

/// ASCII lower-casing: `A`..`Z` become `a`..`z`, everything else stays.
pub open spec fn ascii_lower(c: char) -> char {
    if 'A' <= c && c <= 'Z' {
        ((c as u32) + 32) as char
    } else {
        c
    }
}

pub(crate) fn to_ascii_lower(c: char) -> (r: char)
    ensures
        r == ascii_lower(c),
{
    if 'A' <= c && c <= 'Z' {
        let b = c as u8;
        assert(b as u32 == c as u32);
        ((b + 32) as char)
    } else {
        c
    }
}

/// Tokenizer state after `s`: the finished tokens and the one being read.
pub open spec fn token_state(s: Seq<char>) -> (Seq<Seq<char>>, Seq<char>)
    decreases s.len(),
{
    if s.len() == 0 {
        (Seq::empty(), Seq::empty())
    } else {
        let (done, cur) = token_state(s.drop_last());
        let c = s.last();
        if unicode_alphanumeric(c) {
            (done, cur.push(ascii_lower(c)))
        } else if cur.len() > 0 {
            (done.push(cur), Seq::empty())
        } else {
            (done, cur)
        }
    }
}

/// Tokens of a text: its maximal runs of alphanumeric characters, ASCII
/// lower-cased, in order.
pub open spec fn tokens(s: Seq<char>) -> Seq<Seq<char>> {
    let (done, cur) = token_state(s);
    if cur.len() > 0 {
        done.push(cur)
    } else {
        done
    }
}

/// Splits a text into lower-cased alphanumeric terms.
pub(crate) fn tokenize(text: &str) -> (r: Vec<String>)
    ensures
        r@.map_values(|t: String| t@) == tokens(text@),
{
    let mut out: Vec<String> = Vec::new();
    let mut cur = String::new();
    for c in it: text.chars()
        invariant
            it.seq() == text@,
            out@.map_values(|t: String| t@) == token_state(text@.take(it.index() as int)).0,
            cur@ == token_state(text@.take(it.index() as int)).1,
    {
        let ghost seen = text@.take(it.index() as int);
        proof {
            let next = text@.take(it.index() + 1);
            assert(next.drop_last() =~= seen);
            assert(next.last() == c);
        }
        if is_alphanumeric(c) {
            push_char(&mut cur, to_ascii_lower(c));
        } else if !cur.as_str().is_empty() {
            let t = cur;
            cur = String::new();
            out.push(t);
            proof {
                assert(out@.map_values(|t: String| t@) =~= token_state(seen).0.push(token_state(seen).1));
            }
        }
    }
    let ghost seen = text@;
    proof {
        assert(text@.take(text@.len() as int) =~= text@);
    }
    if !cur.as_str().is_empty() {
        out.push(cur);
        proof {
            assert(out@.map_values(|t: String| t@) =~= token_state(seen).0.push(token_state(seen).1));
        }
    }
    out
}

/// Tokenizer used to anchor reranking on lexical terms.
pub fn tokenize_for_rerank(text: &str) -> (r: Vec<String>)
    ensures
        r@.map_values(|t: String| t@) == tokens(text@),
{
    tokenize(text)
}

/// Occurrences of `t` in `s`.
pub open spec fn occurrences(s: Seq<Seq<char>>, t: Seq<char>) -> nat
    decreases s.len(),
{
    if s.len() == 0 {
        0
    } else {
        occurrences(s.drop_last(), t) + if s.last() == t {
            1nat
        } else {
            0nat
        }
    }
}

proof fn lemma_occurrences_bound(s: Seq<Seq<char>>, t: Seq<char>)
    ensures
        occurrences(s, t) <= s.len(),
        occurrences(s, t) > 0 <==> s.contains(t),
    decreases s.len(),
{
    if s.len() > 0 {
        lemma_occurrences_bound(s.drop_last(), t);
        if s.drop_last().contains(t) {
            let i = choose|i: int| 0 <= i < s.drop_last().len() && s.drop_last()[i] == t;
            assert(s[i] == t);
        }
        if s.contains(t) && s.last() != t {
            let i = choose|i: int| 0 <= i < s.len() && s[i] == t;
            assert(s.drop_last()[i] == t);
        }
    }
}

proof fn lemma_token_count(s: Seq<char>)
    ensures
        token_state(s).0.len() + (if token_state(s).1.len() > 0 {
            1int
        } else {
            0int
        }) <= s.len(),
        tokens(s).len() <= s.len(),
    decreases s.len(),
{
    if s.len() > 0 {
        lemma_token_count(s.drop_last());
    }
}

/// Term frequencies as a map keyed by (term, document).
pub open spec fn pairs_map(v: Seq<(Seq<char>, Seq<char>, u32)>) -> Map<(Seq<char>, Seq<char>), u32>
    decreases v.len(),
{
    if v.len() == 0 {
        Map::empty()
    } else {
        pairs_map(v.drop_last()).insert((v.last().0, v.last().1), v.last().2)
    }
}

/// A map from an association list.
pub open spec fn named_map(v: Seq<(Seq<char>, u32)>) -> Map<Seq<char>, u32>
    decreases v.len(),
{
    if v.len() == 0 {
        Map::empty()
    } else {
        named_map(v.drop_last()).insert(v.last().0, v.last().1)
    }
}

/// No (term, document) pair twice.
pub open spec fn pairs_distinct(v: Seq<(Seq<char>, Seq<char>, u32)>) -> bool {
    forall|i: int, j: int| 0 <= i < j < v.len() ==> (#[trigger] v[i].0, v[i].1) != (#[trigger] v[j].0, v[j].1)
}

/// No name twice.
pub open spec fn names_distinct(v: Seq<(Seq<char>, u32)>) -> bool {
    forall|i: int, j: int| 0 <= i < j < v.len() ==> (#[trigger] v[i]).0 != (#[trigger] v[j]).0
}

proof fn lemma_pairs_map(v: Seq<(Seq<char>, Seq<char>, u32)>, p: (Seq<char>, Seq<char>))
    requires
        pairs_distinct(v),
    ensures
        pairs_map(v).contains_key(p) <==> exists|i: int| 0 <= i < v.len() && (v[i].0, v[i].1) == p,
        forall|i: int| 0 <= i < v.len() && (#[trigger] v[i].0, v[i].1) == p ==> pairs_map(v)[p] == v[i].2,
    decreases v.len(),
{
    if v.len() > 0 {
        let w = v.drop_last();
        assert(pairs_distinct(w)) by {
            assert forall|i: int, j: int| 0 <= i < j < w.len() implies (#[trigger] w[i].0, w[i].1) != (#[trigger] w[j].0, w[j].1) by {
                assert(w[i] == v[i] && w[j] == v[j]);
            }
        }
        lemma_pairs_map(w, p);
        if pairs_map(v).contains_key(p) && (v.last().0, v.last().1) != p {
            let i = choose|i: int| 0 <= i < w.len() && (w[i].0, w[i].1) == p;
            assert(v[i] == w[i]);
        }
        if exists|i: int| 0 <= i < v.len() && (v[i].0, v[i].1) == p {
            let i = choose|i: int| 0 <= i < v.len() && (v[i].0, v[i].1) == p;
            if i < w.len() {
                assert(w[i] == v[i]);
            }
        }
        assert forall|i: int| 0 <= i < v.len() && (#[trigger] v[i].0, v[i].1) == p implies pairs_map(v)[p] == v[i].2 by {
            if i < w.len() {
                assert(w[i] == v[i]);
                assert((v[i].0, v[i].1) != (v[v.len() - 1].0, v[v.len() - 1].1));
            }
        }
    }
}

proof fn lemma_named_map(v: Seq<(Seq<char>, u32)>, k: Seq<char>)
    requires
        names_distinct(v),
    ensures
        named_map(v).contains_key(k) <==> exists|i: int| 0 <= i < v.len() && v[i].0 == k,
        forall|i: int| 0 <= i < v.len() && (#[trigger] v[i]).0 == k ==> named_map(v)[k] == v[i].1,
    decreases v.len(),
{
    if v.len() > 0 {
        let w = v.drop_last();
        assert(names_distinct(w)) by {
            assert forall|i: int, j: int| 0 <= i < j < w.len() implies (#[trigger] w[i]).0 != (#[trigger] w[j]).0 by {
                assert(w[i] == v[i] && w[j] == v[j]);
            }
        }
        lemma_named_map(w, k);
        if named_map(v).contains_key(k) && v.last().0 != k {
            let i = choose|i: int| 0 <= i < w.len() && w[i].0 == k;
            assert(v[i] == w[i]);
        }
        if exists|i: int| 0 <= i < v.len() && v[i].0 == k {
            let i = choose|i: int| 0 <= i < v.len() && v[i].0 == k;
            if i < w.len() {
                assert(w[i] == v[i]);
            }
        }
        assert forall|i: int| 0 <= i < v.len() && (#[trigger] v[i]).0 == k implies named_map(v)[k] == v[i].1 by {
            if i < w.len() {
                assert(w[i] == v[i]);
                assert(v[i].0 != v[v.len() - 1].0);
            }
        }
    }
}

/// The postings without document `k`.
pub open spec fn without_doc(p: Map<(Seq<char>, Seq<char>), u32>, k: Seq<char>) -> Map<(Seq<char>, Seq<char>), u32> {
    Map::new(|q: (Seq<char>, Seq<char>)| p.contains_key(q) && q.1 != k, |q: (Seq<char>, Seq<char>)| p[q])
}

/// The postings with document `k` holding `toks`: each distinct term with its
/// number of occurrences.
pub open spec fn with_doc(p: Map<(Seq<char>, Seq<char>), u32>, k: Seq<char>, toks: Seq<Seq<char>>) -> Map<(Seq<char>, Seq<char>), u32> {
    Map::new(
        |q: (Seq<char>, Seq<char>)| p.contains_key(q) || (q.1 == k && toks.contains(q.0)),
        |q: (Seq<char>, Seq<char>)| if q.1 == k && toks.contains(q.0) {
            occurrences(toks, q.0) as u32
        } else {
            p[q]
        },
    )
}

/// Abstract lexical index.
pub struct LexModel {
    /// Term frequency by (term, document).
    pub postings: Map<(Seq<char>, Seq<char>), u32>,
    /// Token count by document.
    pub doc_len: Map<Seq<char>, u32>,
    /// Indexed document count.
    pub n_docs: u32,
}

pub open spec fn triple_view(t: (String, String, u32)) -> (Seq<char>, Seq<char>, u32) {
    (t.0@, t.1@, t.2)
}

pub open spec fn named_view(d: (String, u32)) -> (Seq<char>, u32) {
    (d.0@, d.1)
}

pub open spec fn triples_view(v: Seq<(String, String, u32)>) -> Seq<(Seq<char>, Seq<char>, u32)> {
    v.map_values(|t: (String, String, u32)| triple_view(t))
}

pub open spec fn nameds_view(v: Seq<(String, u32)>) -> Seq<(Seq<char>, u32)> {
    v.map_values(|d: (String, u32)| named_view(d))
}

/// Inverted index: term frequencies per (term, document), document
/// lengths, document count.
pub struct LexicalIndex {
    postings: Vec<(String, String, u32)>,
    doc_len: Vec<(String, u32)>,
    n_docs: u32,
}

impl View for LexicalIndex {
    type V = LexModel;

    closed spec fn view(&self) -> LexModel {
        LexModel {
            postings: pairs_map(triples_view(self.postings@)),
            doc_len: named_map(nameds_view(self.doc_len@)),
            n_docs: self.n_docs,
        }
    }
}

proof fn lemma_pairs_push(v: Seq<(Seq<char>, Seq<char>, u32)>, x: (Seq<char>, Seq<char>, u32))
    ensures
        pairs_map(v.push(x)) == pairs_map(v).insert((x.0, x.1), x.2),
{
    assert(v.push(x).drop_last() =~= v);
}

proof fn lemma_named_push(v: Seq<(Seq<char>, u32)>, x: (Seq<char>, u32))
    ensures
        named_map(v.push(x)) == named_map(v).insert(x.0, x.1),
{
    assert(v.push(x).drop_last() =~= v);
}

/// Position of `name` in a list of named values.
fn find_named(v: &Vec<(String, u32)>, name: &str) -> (r: Option<usize>)
    ensures
        r matches Some(i) ==> i < v@.len() && v@[i as int].0@ == name@,
        r is None ==> forall|i: int| 0 <= i < v@.len() ==> (#[trigger] v@[i]).0@ != name@,
{
    let mut i: usize = 0;
    while i < v.len()
        invariant
            0 <= i <= v@.len(),
            forall|j: int| 0 <= j < i ==> (#[trigger] v@[j]).0@ != name@,
        decreases v@.len() - i,
    {
        if crate::text::same_text(v[i].0.as_str(), name) {
            return Some(i);
        }
        i += 1;
    }
    None
}

impl LexicalIndex {
    /// Every (term, document) pair and every document name occur once, and
    /// every document with postings has a length.
    pub closed spec fn wf(&self) -> bool {
        &&& pairs_distinct(triples_view(self.postings@))
        &&& names_distinct(nameds_view(self.doc_len@))
        &&& forall|q: (Seq<char>, Seq<char>)| #[trigger] self@.postings.contains_key(q) ==> self@.doc_len.contains_key(q.1)
    }

    /// In a well-formed index every document with postings has a length.
    pub proof fn lemma_postings_documented(&self)
        requires
            self.wf(),
        ensures
            forall|q: (Seq<char>, Seq<char>)| #[trigger] self@.postings.contains_key(q) ==> self@.doc_len.contains_key(q.1),
    {
    }

    /// An empty index.
    pub fn new() -> (r: Self)
        ensures
            r.wf(),
            r@.postings == Map::<(Seq<char>, Seq<char>), u32>::empty(),
            r@.doc_len == Map::<Seq<char>, u32>::empty(),
            r@.n_docs == 0,
    {
        LexicalIndex { postings: Vec::new(), doc_len: Vec::new(), n_docs: 0 }
    }

    /// Number of indexed documents.
    pub fn len(&self) -> (r: usize)
        ensures
            r == self@.n_docs,
    {
        self.n_docs as usize
    }

    /// Whether no document is indexed.
    pub fn is_empty(&self) -> (r: bool)
        ensures
            r == (self@.n_docs == 0),
    {
        self.n_docs == 0
    }

    /// Removes a document: its length, its postings, and one from the count
    /// (saturating); nothing when it is not indexed.
    pub fn remove(&mut self, key: &str)
        requires
            old(self).wf(),
        ensures
            final(self).wf(),
            !old(self)@.doc_len.contains_key(key@) ==> final(self)@ == old(self)@,
            old(self)@.doc_len.contains_key(key@) ==> final(self)@.doc_len == old(self)@.doc_len.remove(key@)
                && final(self)@.n_docs == (if old(self)@.n_docs == 0 {
                0
            } else {
                (old(self)@.n_docs - 1) as u32
            }) && final(self)@.postings == without_doc(old(self)@.postings, key@),
    {
        let pos = match find_named(&self.doc_len, key) {
            Some(p) => p,
            None => {
                proof {
                    lemma_named_map(nameds_view(self.doc_len@), key@);
                    assert forall|j: int| 0 <= j < nameds_view(self.doc_len@).len() implies nameds_view(self.doc_len@)[j].0 != key@ by {
                        assert(nameds_view(self.doc_len@)[j] == named_view(self.doc_len@[j]));
                    }
                }
                return;
            },
        };
        let ghost old_self = *self;
        proof {
            lemma_named_map(nameds_view(self.doc_len@), key@);
            assert(nameds_view(self.doc_len@)[pos as int] == named_view(self.doc_len@[pos as int]));
        }
        let ghost dl = nameds_view(self.doc_len@);
        self.doc_len.remove(pos);
        proof {
            lemma_named_remove(dl, pos as int);
            assert(nameds_view(self.doc_len@) =~= dl.remove(pos as int));
        }
        self.n_docs = self.n_docs.saturating_sub(1);
        let mut kept: Vec<(String, String, u32)> = Vec::new();
        let mut i: usize = 0;
        let ghost pv = triples_view(old_self.postings@);
        while i < self.postings.len()
            invariant
                0 <= i <= self.postings@.len(),
                self.postings@ == old_self.postings@,
                pv == triples_view(self.postings@),
                pairs_distinct(pv),
                pairs_distinct(triples_view(kept@)),
                pairs_map(triples_view(kept@)) == without_doc(pairs_map(pv.take(i as int)), key@),
                forall|j: int| 0 <= j < kept@.len() ==> exists|m: int| 0 <= m < i && #[trigger] triples_view(kept@)[j] == pv[m],
            decreases self.postings@.len() - i,
        {
            let ghost before = triples_view(kept@);
            if !crate::text::same_text(self.postings[i].1.as_str(), key) {
                let t = (self.postings[i].0.clone(), self.postings[i].1.clone(), self.postings[i].2);
                kept.push(t);
                proof {
                    assert(triples_view(kept@) =~= before.push(pv[i as int]));
                    lemma_pairs_push(before, pv[i as int]);
                    assert forall|a: int, b: int| 0 <= a < b < triples_view(kept@).len() implies (#[trigger] triples_view(kept@)[a].0, triples_view(kept@)[a].1)
                        != (#[trigger] triples_view(kept@)[b].0, triples_view(kept@)[b].1) by {
                        if b == before.len() {
                            let m = choose|m: int| 0 <= m < i && #[trigger] before[a] == pv[m];
                            assert(triples_view(kept@)[a] == before[a]);
                        } else {
                            assert(triples_view(kept@)[a] == before[a] && triples_view(kept@)[b] == before[b]);
                        }
                    }
                    assert forall|j: int| 0 <= j < kept@.len() implies exists|m: int| 0 <= m < i + 1 && #[trigger] triples_view(kept@)[j] == pv[m] by {
                        if j < before.len() {
                            assert(triples_view(kept@)[j] == before[j]);
                        } else {
                            assert(triples_view(kept@)[j] == pv[i as int]);
                        }
                    }
                }
            }
            proof {
                assert(pv.take(i + 1) =~= pv.take(i as int).push(pv[i as int]));
                lemma_pairs_push(pv.take(i as int), pv[i as int]);
                assert(!pairs_map(pv.take(i as int)).contains_key((pv[i as int].0, pv[i as int].1))) by {
                    lemma_pairs_map(pv.take(i as int), (pv[i as int].0, pv[i as int].1));
                    if pairs_map(pv.take(i as int)).contains_key((pv[i as int].0, pv[i as int].1)) {
                        let m = choose|m: int| 0 <= m < i && (pv.take(i as int)[m].0, pv.take(i as int)[m].1) == (pv[i as int].0, pv[i as int].1);
                        assert(pv.take(i as int)[m] == pv[m]);
                    }
                }
                assert(pairs_map(triples_view(kept@)) =~= without_doc(pairs_map(pv.take(i + 1)), key@));
            }
            i += 1;
        }
        proof {
            assert(pv.take(i as int) =~= pv);
        }
        self.postings = kept;
        proof {
            assert forall|q: (Seq<char>, Seq<char>)| #[trigger] self@.postings.contains_key(q) implies self@.doc_len.contains_key(q.1) by {
                assert(old_self@.postings.contains_key(q));
                assert(old_self@.doc_len.contains_key(q.1));
            }
        }
    }
}

proof fn lemma_named_remove(v: Seq<(Seq<char>, u32)>, i: int)
    requires
        names_distinct(v),
        0 <= i < v.len(),
    ensures
        names_distinct(v.remove(i)),
        named_map(v.remove(i)) == named_map(v).remove(v[i].0),
{
    let w = v.remove(i);
    assert(names_distinct(w)) by {
        assert forall|a: int, b: int| 0 <= a < b < w.len() implies (#[trigger] w[a]).0 != (#[trigger] w[b]).0 by {
            let a2 = if a < i { a } else { a + 1 };
            let b2 = if b < i { b } else { b + 1 };
            assert(w[a] == v[a2] && w[b] == v[b2]);
        }
    }
    assert forall|k: Seq<char>| #[trigger] named_map(w).contains_key(k) == named_map(v).remove(v[i].0).contains_key(k) by {
        lemma_named_map(w, k);
        lemma_named_map(v, k);
        if named_map(w).contains_key(k) {
            let a = choose|a: int| 0 <= a < w.len() && w[a].0 == k;
            let a2 = if a < i { a } else { a + 1 };
            assert(w[a] == v[a2]);
        }
        if named_map(v).remove(v[i].0).contains_key(k) {
            let a = choose|a: int| 0 <= a < v.len() && v[a].0 == k;
            assert(a != i);
            let a1 = if a < i { a } else { a - 1 };
            assert(w[a1] == v[a]);
        }
    }
    assert forall|k: Seq<char>| #[trigger] named_map(w).contains_key(k) implies named_map(w)[k] == named_map(v).remove(v[i].0)[k] by {
        lemma_named_map(w, k);
        lemma_named_map(v, k);
        let a = choose|a: int| 0 <= a < w.len() && w[a].0 == k;
        let a2 = if a < i { a } else { a + 1 };
        assert(w[a] == v[a2]);
    }
    assert(named_map(w) =~= named_map(v).remove(v[i].0));
}

proof fn lemma_named_update(v: Seq<(Seq<char>, u32)>, j: int, x: (Seq<char>, u32))
    requires
        names_distinct(v),
        0 <= j < v.len(),
        v[j].0 == x.0,
    ensures
        names_distinct(v.update(j, x)),
        named_map(v.update(j, x)) == named_map(v).insert(x.0, x.1),
{
    let w = v.update(j, x);
    assert(names_distinct(w)) by {
        assert forall|a: int, b: int| 0 <= a < b < w.len() implies (#[trigger] w[a]).0 != (#[trigger] w[b]).0 by {
            assert(w[a].0 == v[a].0 && w[b].0 == v[b].0);
        }
    }
    assert forall|k: Seq<char>| #[trigger] named_map(w).contains_key(k) == named_map(v).insert(x.0, x.1).contains_key(k) by {
        lemma_named_map(w, k);
        lemma_named_map(v, k);
        if named_map(w).contains_key(k) {
            let a = choose|a: int| 0 <= a < w.len() && w[a].0 == k;
            assert(w[a].0 == v[a].0);
        }
        if named_map(v).contains_key(k) {
            let a = choose|a: int| 0 <= a < v.len() && v[a].0 == k;
            assert(w[a].0 == v[a].0);
        }
        if k == x.0 {
            assert(w[j].0 == k);
        }
    }
    assert forall|k: Seq<char>| #[trigger] named_map(w).contains_key(k) implies named_map(w)[k] == named_map(v).insert(x.0, x.1)[k] by {
        lemma_named_map(w, k);
        lemma_named_map(v, k);
        let a = choose|a: int| 0 <= a < w.len() && w[a].0 == k;
        if a != j {
            assert(w[a] == v[a]);
        }
    }
    assert(named_map(w) =~= named_map(v).insert(x.0, x.1));
}

/// Occurrence counts of the tokens, one entry per distinct token.
fn count_terms(toks: &Vec<String>) -> (r: Vec<(String, u32)>)
    requires
        toks@.len() < u32::MAX,
    ensures
        names_distinct(nameds_view(r@)),
        named_map(nameds_view(r@)) == Map::new(
            |t: Seq<char>| toks@.map_values(|s: String| s@).contains(t),
            |t: Seq<char>| occurrences(toks@.map_values(|s: String| s@), t) as u32,
        ),
{
    let ghost ts = toks@.map_values(|s: String| s@);
    let mut tf: Vec<(String, u32)> = Vec::new();
    let mut i: usize = 0;
    proof {
        assert(named_map(nameds_view(tf@)) =~= Map::new(
            |t: Seq<char>| ts.take(0).contains(t),
            |t: Seq<char>| occurrences(ts.take(0), t) as u32,
        ));
    }
    while i < toks.len()
        invariant
            0 <= i <= toks@.len(),
            toks@.len() < u32::MAX,
            ts == toks@.map_values(|s: String| s@),
            names_distinct(nameds_view(tf@)),
            named_map(nameds_view(tf@)) == Map::new(
                |t: Seq<char>| ts.take(i as int).contains(t),
                |t: Seq<char>| occurrences(ts.take(i as int), t) as u32,
            ),
        decreases toks@.len() - i,
    {
        let ghost before = nameds_view(tf@);
        let t = &toks[i];
        let ghost tv = ts[i as int];
        assert(t@ == tv);
        proof {
            assert(ts.take(i + 1) =~= ts.take(i as int).push(tv));
            assert(ts.take(i + 1).drop_last() =~= ts.take(i as int));
            lemma_occurrences_bound(ts.take(i as int), tv);
        }
        match find_named(&tf, t.as_str()) {
            Some(j) => {
                let c = tf[j].1;
                proof {
                    lemma_named_map(before, tv);
                    assert(before[j as int] == named_view(tf@[j as int]));
                    assert(named_map(before)[tv] == c);
                    assert(c as nat == occurrences(ts.take(i as int), tv));
                }
                let name = tf[j].0.clone();
                tf.set(j, (name, c + 1));
                proof {
                    assert(nameds_view(tf@) =~= before.update(j as int, (tv, (c + 1) as u32)));
                    lemma_named_update(before, j as int, (tv, (c + 1) as u32));
                    assert forall|u: Seq<char>| #[trigger] ts.take(i + 1).contains(u) == (ts.take(i as int).contains(u) || u == tv) by {
                        if ts.take(i + 1).contains(u) && u != tv {
                            let m = choose|m: int| 0 <= m < i + 1 && #[trigger] ts.take(i + 1)[m] == u;
                            assert(ts.take(i as int)[m] == u);
                        }
                        if ts.take(i as int).contains(u) {
                            let m = choose|m: int| 0 <= m < i && #[trigger] ts.take(i as int)[m] == u;
                            assert(ts.take(i + 1)[m] == u);
                        }
                        if u == tv {
                            assert(ts.take(i + 1)[i as int] == u);
                        }
                    }
                    assert(named_map(nameds_view(tf@)) =~= Map::new(
                        |u: Seq<char>| ts.take(i + 1).contains(u),
                        |u: Seq<char>| occurrences(ts.take(i + 1), u) as u32,
                    ));
                }
            },
            None => {
                proof {
                    lemma_named_map(before, tv);
                    assert forall|j: int| 0 <= j < before.len() implies before[j].0 != tv by {
                        assert(before[j] == named_view(tf@[j]));
                    }
                    assert(occurrences(ts.take(i as int), tv) == 0) by {
                        if occurrences(ts.take(i as int), tv) > 0 {
                            assert(named_map(before).contains_key(tv));
                        }
                    }
                }
                let name = t.clone();
                tf.push((name, 1));
                proof {
                    assert(nameds_view(tf@) =~= before.push((tv, 1u32)));
                    lemma_named_push(before, (tv, 1u32));
                    assert(names_distinct(nameds_view(tf@))) by {
                        assert forall|a: int, b: int| 0 <= a < b < nameds_view(tf@).len() implies (#[trigger] nameds_view(tf@)[a]).0
                            != (#[trigger] nameds_view(tf@)[b]).0 by {
                            if b == before.len() {
                                assert(nameds_view(tf@)[a] == before[a]);
                            } else {
                                assert(nameds_view(tf@)[a] == before[a] && nameds_view(tf@)[b] == before[b]);
                            }
                        }
                    }
                    assert forall|u: Seq<char>| #[trigger] ts.take(i + 1).contains(u) == (ts.take(i as int).contains(u) || u == tv) by {
                        if ts.take(i + 1).contains(u) && u != tv {
                            let m = choose|m: int| 0 <= m < i + 1 && #[trigger] ts.take(i + 1)[m] == u;
                            assert(ts.take(i as int)[m] == u);
                        }
                        if ts.take(i as int).contains(u) {
                            let m = choose|m: int| 0 <= m < i && #[trigger] ts.take(i as int)[m] == u;
                            assert(ts.take(i + 1)[m] == u);
                        }
                        if u == tv {
                            assert(ts.take(i + 1)[i as int] == u);
                        }
                    }
                    assert(named_map(nameds_view(tf@)) =~= Map::new(
                        |u: Seq<char>| ts.take(i + 1).contains(u),
                        |u: Seq<char>| occurrences(ts.take(i + 1), u) as u32,
                    ));
                }
            },
        }
        i += 1;
    }
    proof {
        assert(ts.take(i as int) =~= ts);
    }
    tf
}

impl LexicalIndex {
    /// Indexes a document's text under `key`, replacing what the key held:
    /// its length is its token count and each distinct token gets its number
    /// of occurrences; a text without tokens only removes the key.
    pub fn add(&mut self, key: &str, text: &str)
        requires
            old(self).wf(),
            text@.len() < u32::MAX,
        ensures
            final(self).wf(),
            ({
                let had = old(self)@.doc_len.contains_key(key@);
                let base_len = if had {
                    old(self)@.doc_len.remove(key@)
                } else {
                    old(self)@.doc_len
                };
                let base_n: u32 = if had && old(self)@.n_docs > 0 {
                    (old(self)@.n_docs - 1) as u32
                } else {
                    old(self)@.n_docs
                };
                let toks = tokens(text@);
                &&& toks.len() == 0 ==> final(self)@.doc_len == base_len && final(self)@.n_docs == base_n
                    && final(self)@.postings == without_doc(old(self)@.postings, key@)
                &&& toks.len() > 0 ==> final(self)@.doc_len == base_len.insert(key@, toks.len() as u32)
                    && final(self)@.n_docs == (if base_n == u32::MAX {
                    u32::MAX
                } else {
                    (base_n + 1) as u32
                }) && final(self)@.postings == with_doc(without_doc(old(self)@.postings, key@), key@, toks)
            }),
    {
        let ghost o = old(self)@;
        if find_named(&self.doc_len, key).is_some() {
            proof {
                lemma_named_map(nameds_view(self.doc_len@), key@);
            }
            self.remove(key);
        } else {
            proof {
                lemma_named_map(nameds_view(self.doc_len@), key@);
                assert forall|j: int| 0 <= j < nameds_view(self.doc_len@).len() implies nameds_view(self.doc_len@)[j].0 != key@ by {
                    assert(nameds_view(self.doc_len@)[j] == named_view(self.doc_len@[j]));
                }
                assert(self@.postings =~= without_doc(o.postings, key@));
            }
        }
        let ghost mid = *self;
        let toks = tokenize(text);
        proof {
            lemma_token_count(text@);
            assert(toks@.len() == tokens(text@).len());
        }
        if toks.len() == 0 {
            return;
        }
        self.n_docs = self.n_docs.saturating_add(1);
        let ghost dl = nameds_view(self.doc_len@);
        proof {
            lemma_named_map(dl, key@);
            assert(!mid@.doc_len.contains_key(key@));
        }
        self.doc_len.push((String::from_str(key), toks.len() as u32));
        proof {
            assert(nameds_view(self.doc_len@) =~= dl.push((key@, toks@.len() as u32)));
            lemma_named_push(dl, (key@, toks@.len() as u32));
            assert(names_distinct(nameds_view(self.doc_len@))) by {
                assert forall|a: int, b: int| 0 <= a < b < nameds_view(self.doc_len@).len() implies (#[trigger] nameds_view(self.doc_len@)[a]).0
                    != (#[trigger] nameds_view(self.doc_len@)[b]).0 by {
                    if b == dl.len() {
                        assert(nameds_view(self.doc_len@)[a] == dl[a]);
                    } else {
                        assert(nameds_view(self.doc_len@)[a] == dl[a] && nameds_view(self.doc_len@)[b] == dl[b]);
                    }
                }
            }
        }
        let tf = count_terms(&toks);
        let ghost dl2 = self.doc_len@;
        let ghost nd = self.n_docs;
        let ghost tv = nameds_view(tf@);
        let ghost ts = toks@.map_values(|s: String| s@);
        let ghost p0 = pairs_map(triples_view(self.postings@));
        proof {
            assert(ts == tokens(text@));
            assert forall|q: (Seq<char>, Seq<char>)| #[trigger] p0.contains_key(q) implies q.1 != key@ by {
                assert(mid@.postings.contains_key(q));
            }
        }
        let mut i: usize = 0;
        while i < tf.len()
            invariant
                0 <= i <= tf@.len(),
                tv == nameds_view(tf@),
                self.doc_len@ == dl2,
                self.n_docs == nd,
                names_distinct(tv),
                forall|q: (Seq<char>, Seq<char>)| #[trigger] p0.contains_key(q) ==> q.1 != key@,
                pairs_distinct(triples_view(self.postings@)),
                pairs_map(triples_view(self.postings@)) == Map::new(
                    |q: (Seq<char>, Seq<char>)| p0.contains_key(q) || (q.1 == key@ && named_map(tv.take(i as int)).contains_key(q.0)),
                    |q: (Seq<char>, Seq<char>)| if q.1 == key@ && named_map(tv.take(i as int)).contains_key(q.0) {
                        named_map(tv.take(i as int))[q.0]
                    } else {
                        p0[q]
                    },
                ),
            decreases tf@.len() - i,
        {
            let ghost before = triples_view(self.postings@);
            let item = (tf[i].0.clone(), String::from_str(key), tf[i].1);
            proof {
                assert(tv[i as int] == named_view(tf@[i as int]));
                assert(triple_view(item) == (tv[i as int].0, key@, tv[i as int].1));
                lemma_pairs_map(before, (tv[i as int].0, key@));
                assert(!pairs_map(before).contains_key((tv[i as int].0, key@))) by {
                    assert(names_distinct(tv.take(i as int))) by {
                        assert forall|a: int, b: int| 0 <= a < b < tv.take(i as int).len() implies (#[trigger] tv.take(i as int)[a]).0
                            != (#[trigger] tv.take(i as int)[b]).0 by {
                            assert(tv.take(i as int)[a] == tv[a] && tv.take(i as int)[b] == tv[b]);
                        }
                    }
                    lemma_named_map(tv.take(i as int), tv[i as int].0);
                    if named_map(tv.take(i as int)).contains_key(tv[i as int].0) {
                        let m = choose|m: int| 0 <= m < tv.take(i as int).len() && tv.take(i as int)[m].0 == tv[i as int].0;
                        assert(tv.take(i as int)[m] == tv[m]);
                    }
                }
            }
            self.postings.push(item);
            proof {
                assert(triples_view(self.postings@) =~= before.push(triple_view(item)));
                lemma_pairs_push(before, triple_view(item));
                assert(pairs_distinct(triples_view(self.postings@))) by {
                    assert forall|a: int, b: int| 0 <= a < b < triples_view(self.postings@).len() implies (#[trigger] triples_view(self.postings@)[a].0, triples_view(self.postings@)[a].1)
                        != (#[trigger] triples_view(self.postings@)[b].0, triples_view(self.postings@)[b].1) by {
                        if b == before.len() {
                            assert(triples_view(self.postings@)[a] == before[a]);
                            lemma_pairs_map(before, (before[a].0, before[a].1));
                            assert(pairs_map(before).contains_key((before[a].0, before[a].1)));
                        } else {
                            assert(triples_view(self.postings@)[a] == before[a] && triples_view(self.postings@)[b] == before[b]);
                        }
                    }
                }
                assert(tv.take(i + 1) =~= tv.take(i as int).push(tv[i as int]));
                lemma_named_push(tv.take(i as int), tv[i as int]);
                assert(pairs_map(triples_view(self.postings@)) =~= Map::new(
                    |q: (Seq<char>, Seq<char>)| p0.contains_key(q) || (q.1 == key@ && named_map(tv.take(i + 1)).contains_key(q.0)),
                    |q: (Seq<char>, Seq<char>)| if q.1 == key@ && named_map(tv.take(i + 1)).contains_key(q.0) {
                        named_map(tv.take(i + 1))[q.0]
                    } else {
                        p0[q]
                    },
                ));
            }
            i += 1;
        }
        proof {
            assert(tv.take(i as int) =~= tv);
            assert(self@.postings =~= with_doc(without_doc(o.postings, key@), key@, tokens(text@)));
            assert forall|q: (Seq<char>, Seq<char>)| #[trigger] self@.postings.contains_key(q) implies self@.doc_len.contains_key(q.1) by {
                if q.1 != key@ {
                    assert(p0.contains_key(q));
                    assert(mid@.postings.contains_key(q));
                }
            }
        }
    }
}

impl Default for LexicalIndex {
    fn default() -> (r: Self)
        ensures
            r.wf(),
            r@.postings == Map::<(Seq<char>, Seq<char>), u32>::empty(),
            r@.doc_len == Map::<Seq<char>, u32>::empty(),
            r@.n_docs == 0,
    {
        Self::new()
    }
}

impl LexicalIndex {
    /// Indexed document count (the `N` of inverse document frequency).
    pub fn n_docs(&self) -> (r: u32)
        ensures
            r == self@.n_docs,
    {
        self.n_docs
    }

    /// The postings of a term: each document holding it, once, with the
    /// term's frequency there.
    pub fn postings_of(&self, term: &str) -> (r: Vec<(String, u32)>)
        ensures
            self.wf() ==> names_distinct(nameds_view(r@)),
            self.wf() ==> named_map(nameds_view(r@)) == Map::new(
                |d: Seq<char>| self@.postings.contains_key((term@, d)),
                |d: Seq<char>| self@.postings[(term@, d)],
            ),
    {
        let ghost pv = triples_view(self.postings@);
        let mut out: Vec<(String, u32)> = Vec::new();
        let mut i: usize = 0;
        while i < self.postings.len()
            invariant
                0 <= i <= self.postings@.len(),
                pv == triples_view(self.postings@),
                pairs_distinct(pv) ==> names_distinct(nameds_view(out@)),
                pairs_distinct(pv) ==> named_map(nameds_view(out@)) == Map::new(
                    |d: Seq<char>| pairs_map(pv.take(i as int)).contains_key((term@, d)),
                    |d: Seq<char>| pairs_map(pv.take(i as int))[(term@, d)],
                ),
            decreases self.postings@.len() - i,
        {
            let ghost before = nameds_view(out@);
            proof {
                if pairs_distinct(pv) {
                    assert(pv.take(i + 1) =~= pv.take(i as int).push(pv[i as int]));
                    lemma_pairs_push(pv.take(i as int), pv[i as int]);
                    assert(pairs_distinct(pv.take(i as int))) by {
                        assert forall|a: int, b: int| 0 <= a < b < pv.take(i as int).len() implies (#[trigger] pv.take(i as int)[a].0, pv.take(i as int)[a].1)
                            != (#[trigger] pv.take(i as int)[b].0, pv.take(i as int)[b].1) by {
                            assert(pv.take(i as int)[a] == pv[a] && pv.take(i as int)[b] == pv[b]);
                        }
                    }
                    lemma_pairs_map(pv.take(i as int), (pv[i as int].0, pv[i as int].1));
                    assert(!pairs_map(pv.take(i as int)).contains_key((pv[i as int].0, pv[i as int].1))) by {
                        if pairs_map(pv.take(i as int)).contains_key((pv[i as int].0, pv[i as int].1)) {
                            let m = choose|m: int| 0 <= m < pv.take(i as int).len() && (pv.take(i as int)[m].0, pv.take(i as int)[m].1)
                                == (pv[i as int].0, pv[i as int].1);
                            assert(pv.take(i as int)[m] == pv[m]);
                        }
                    }
                }
            }
            if crate::text::same_text(self.postings[i].0.as_str(), term) {
                let item = (self.postings[i].1.clone(), self.postings[i].2);
                proof {
                    assert(named_view(item) == (pv[i as int].1, pv[i as int].2));
                    if pairs_distinct(pv) {
                        lemma_named_map(before, pv[i as int].1);
                    }
                }
                out.push(item);
                proof {
                    if pairs_distinct(pv) {
                        assert(nameds_view(out@) =~= before.push((pv[i as int].1, pv[i as int].2)));
                        lemma_named_push(before, (pv[i as int].1, pv[i as int].2));
                        assert(names_distinct(nameds_view(out@))) by {
                            assert forall|a: int, b: int| 0 <= a < b < nameds_view(out@).len() implies (#[trigger] nameds_view(out@)[a]).0
                                != (#[trigger] nameds_view(out@)[b]).0 by {
                                if b == before.len() {
                                    assert(nameds_view(out@)[a] == before[a]);
                                    lemma_named_map(before, before[a].0);
                                } else {
                                    assert(nameds_view(out@)[a] == before[a] && nameds_view(out@)[b] == before[b]);
                                }
                            }
                        }
                        assert(named_map(nameds_view(out@)) =~= Map::new(
                            |d: Seq<char>| pairs_map(pv.take(i + 1)).contains_key((term@, d)),
                            |d: Seq<char>| pairs_map(pv.take(i + 1))[(term@, d)],
                        ));
                    }
                }
            } else {
                proof {
                    if pairs_distinct(pv) {
                        assert(named_map(nameds_view(out@)) =~= Map::new(
                            |d: Seq<char>| pairs_map(pv.take(i + 1)).contains_key((term@, d)),
                            |d: Seq<char>| pairs_map(pv.take(i + 1))[(term@, d)],
                        ));
                    }
                }
            }
            i += 1;
        }
        proof {
            assert(pv.take(i as int) =~= pv);
        }
        out
    }
}

/// Re-indexing a document does not duplicate its counts: adding the same
/// text under a key twice leaves the postings the first add left.
pub proof fn law_reindex_idempotent(p: Map<(Seq<char>, Seq<char>), u32>, k: Seq<char>, toks: Seq<Seq<char>>)
    ensures
        with_doc(without_doc(with_doc(without_doc(p, k), k, toks), k), k, toks) == with_doc(without_doc(p, k), k, toks),
{
    assert(without_doc(with_doc(without_doc(p, k), k, toks), k) =~= without_doc(p, k));
}

/// Removing a document after adding it leaves no trace of it: the other
/// documents' postings are as before.
pub proof fn law_remove_undoes_add(p: Map<(Seq<char>, Seq<char>), u32>, k: Seq<char>, toks: Seq<Seq<char>>)
    ensures
        without_doc(with_doc(without_doc(p, k), k, toks), k) == without_doc(p, k),
        forall|q: (Seq<char>, Seq<char>)| q.1 != k ==> (#[trigger] without_doc(p, k).contains_key(q) == p.contains_key(q)),
{
    assert(without_doc(with_doc(without_doc(p, k), k, toks), k) =~= without_doc(p, k));
}

/// Adding a document the index did not hold and removing it again gives
/// the index back: its postings (with or without tokens), its lengths and
/// its document count (`add` then `remove` as their contracts state).
pub proof fn law_add_then_remove_restores(m: LexModel, k: Seq<char>, toks: Seq<Seq<char>>)
    requires
        forall|q: (Seq<char>, Seq<char>)| #[trigger] m.postings.contains_key(q) ==> m.doc_len.contains_key(q.1),
        !m.doc_len.contains_key(k),
        m.n_docs < u32::MAX,
    ensures
        without_doc(m.postings, k) == m.postings,
        without_doc(with_doc(without_doc(m.postings, k), k, toks), k) == m.postings,
        m.doc_len.insert(k, toks.len() as u32).remove(k) == m.doc_len,
        (((m.n_docs + 1) as u32) - 1) as u32 == m.n_docs,
{
    assert(without_doc(m.postings, k) =~= m.postings);
    assert(without_doc(with_doc(without_doc(m.postings, k), k, toks), k) =~= without_doc(m.postings, k));
    assert(m.doc_len.insert(k, toks.len() as u32).remove(k) =~= m.doc_len);
}


/// Distinct tokens among the first `n`, no more added once `cap` are kept.
pub open spec fn first_distinct(toks: Seq<Seq<char>>, n: nat, cap: nat) -> Set<Seq<char>>
    decreases n,
{
    if n == 0 {
        Set::empty()
    } else {
        let s = first_distinct(toks, (n - 1) as nat, cap);
        if s.len() >= cap {
            s
        } else {
            s.insert(toks[n - 1])
        }
    }
}

proof fn lemma_first_distinct_finite(toks: Seq<Seq<char>>, n: nat, cap: nat)
    ensures
        first_distinct(toks, n, cap).finite(),
    decreases n,
{
    if n > 0 {
        lemma_first_distinct_finite(toks, (n - 1) as nat, cap);
    }
}

proof fn lemma_first_distinct_full(toks: Seq<Seq<char>>, i: nat, n: nat, cap: nat)
    requires
        i <= n,
        first_distinct(toks, i, cap).len() >= cap,
    ensures
        first_distinct(toks, n, cap) == first_distinct(toks, i, cap),
    decreases n - i,
{
    if n > i {
        lemma_first_distinct_full(toks, i, (n - 1) as nat, cap);
    }
}

proof fn lemma_sorted_texts_unique(t: Seq<Seq<char>>)
    requires
        crate::conflict::texts_sorted(t),
    ensures
        t.len() == t.to_set().len(),
{
    assert(t.no_duplicates()) by {
        assert forall|i: int, j: int| 0 <= i < t.len() && 0 <= j < t.len() && i != j implies t[i] != t[j] by {
            if i < j {
                assert(crate::order::bytes_lt(vstd::utf8::encode_utf8(t[i]), vstd::utf8::encode_utf8(t[j])));
                crate::order::lemma_lt_irreflexive(vstd::utf8::encode_utf8(t[i]));
            } else {
                assert(crate::order::bytes_lt(vstd::utf8::encode_utf8(t[j]), vstd::utf8::encode_utf8(t[i])));
                crate::order::lemma_lt_irreflexive(vstd::utf8::encode_utf8(t[j]));
            }
        }
    }
    t.unique_seq_to_set();
}

/// The query's terms as scored by ranking: its distinct tokens, in ascending
/// byte order, taken from the first tokens until 1024 distinct ones are
/// kept.
pub fn query_terms(query: &str) -> (r: Vec<String>)
    ensures
        crate::conflict::texts_sorted(crate::wire::str_views(r@)),
        crate::wire::str_views(r@).to_set() == first_distinct(tokens(query@), tokens(query@).len(), 1024),
{
    let toks = tokenize(query);
    let ghost tv = toks@.map_values(|t: String| t@);
    let mut out: Vec<String> = Vec::new();
    let mut i: usize = 0;
    proof {
        assert(crate::wire::str_views(out@).to_set() =~= Set::<Seq<char>>::empty());
    }
    while i < toks.len()
        invariant
            tv == toks@.map_values(|t: String| t@),
            tv == tokens(query@),
            0 <= i <= toks@.len(),
            crate::conflict::texts_sorted(crate::wire::str_views(out@)),
            crate::wire::str_views(out@).to_set() == first_distinct(tv, i as nat, 1024),
            out@.len() == first_distinct(tv, i as nat, 1024).len(),
        decreases toks@.len() - i,
    {
        if out.len() >= 1024 {
            proof {
                lemma_first_distinct_full(tv, i as nat, tv.len(), 1024);
            }
            return out;
        }
        let t = toks[i].clone();
        assert(t@ == tv[i as int]);
        crate::conflict::insert_text(&mut out, t);
        proof {
            lemma_first_distinct_finite(tv, i as nat, 1024);
            assert(crate::wire::str_views(out@).to_set() == first_distinct(tv, (i + 1) as nat, 1024));
            lemma_sorted_texts_unique(crate::wire::str_views(out@));
        }
        i += 1;
    }
    out
}


// ---- canonical fingerprint -------------------------------------------------

/// A scalar mixed as its eight little-endian bytes.
pub open spec fn mix_u64(h: u64, v: u64) -> u64 {
    crate::fingerprint::fnv(h, vstd::bytes::spec_u64_to_le_bytes(v))
}

/// A text mixed as its UTF-8 byte length (a `u64`) then its bytes.
pub open spec fn mix_text(h: u64, t: Seq<char>) -> u64 {
    crate::fingerprint::fnv(
        crate::fingerprint::fnv(h, vstd::bytes::spec_u64_to_le_bytes(vstd::utf8::encode_utf8(t).len() as u64)),
        vstd::utf8::encode_utf8(t),
    )
}

/// Terms with at least one posting.
pub open spec fn term_set(p: Map<(Seq<char>, Seq<char>), u32>) -> Set<Seq<char>> {
    Set::new(|t: Seq<char>| exists|d: Seq<char>| #[trigger] p.contains_key((t, d)))
}

/// Documents holding term `t`.
pub open spec fn doc_set(p: Map<(Seq<char>, Seq<char>), u32>, t: Seq<char>) -> Set<Seq<char>> {
    Set::new(|d: Seq<char>| p.contains_key((t, d)))
}

/// The texts of a set in ascending byte order.
pub open spec fn ordered(s: Set<Seq<char>>) -> Seq<Seq<char>> {
    choose|o: Seq<Seq<char>>| crate::conflict::texts_sorted(o) && o.to_set() == s
}

/// Mixes each document of `ds` with its frequency for term `t`.
pub open spec fn mix_docs(h: u64, p: Map<(Seq<char>, Seq<char>), u32>, t: Seq<char>, ds: Seq<Seq<char>>) -> u64
    decreases ds.len(),
{
    if ds.len() == 0 {
        h
    } else {
        mix_u64(mix_text(mix_docs(h, p, t, ds.drop_last()), ds.last()), p[(t, ds.last())] as u64)
    }
}

/// Mixes a term, its document count, then its documents in order.
pub open spec fn mix_term(h: u64, p: Map<(Seq<char>, Seq<char>), u32>, t: Seq<char>) -> u64 {
    let ds = ordered(doc_set(p, t));
    mix_docs(mix_u64(mix_text(h, t), ds.len() as u64), p, t, ds)
}

/// Mixes each term of `ts` in order.
pub open spec fn mix_terms(h: u64, p: Map<(Seq<char>, Seq<char>), u32>, ts: Seq<Seq<char>>) -> u64
    decreases ts.len(),
{
    if ts.len() == 0 {
        h
    } else {
        mix_term(mix_terms(h, p, ts.drop_last()), p, ts.last())
    }
}

/// Fingerprint of an index's content: the document count, the term count,
/// then each term in ascending byte order with its documents in ascending
/// byte order. It depends on the content only, never on insertion order.
pub open spec fn index_fingerprint(h: u64, m: LexModel) -> u64 {
    let ts = ordered(term_set(m.postings));
    mix_terms(mix_u64(mix_u64(h, m.n_docs as u64), ts.len() as u64), m.postings, ts)
}

/// A sorted list witnesses `ordered` of its own set.
proof fn lemma_ordered_is(o: Seq<Seq<char>>, s: Set<Seq<char>>)
    requires
        crate::conflict::texts_sorted(o),
        o.to_set() == s,
    ensures
        ordered(s) == o,
{
    let c = ordered(s);
    assert(crate::conflict::texts_sorted(c) && c.to_set() == s);
    crate::conflict::law_canonical_candidates_unique(c, o);
}

/// The names of a list, sorted.
fn sorted_names(v: &Vec<(String, u32)>) -> (r: Vec<String>)
    ensures
        crate::conflict::texts_sorted(crate::wire::str_views(r@)),
        crate::wire::str_views(r@).to_set() == Set::new(|d: Seq<char>| exists|k: int| 0 <= k < v@.len() && #[trigger] v@[k].0@ == d),
{
    let mut out: Vec<String> = Vec::new();
    let mut i: usize = 0;
    proof {
        assert(crate::wire::str_views(out@).to_set() =~= Set::new(|d: Seq<char>| exists|k: int| 0 <= k < 0 && #[trigger] v@[k].0@ == d));
    }
    while i < v.len()
        invariant
            0 <= i <= v@.len(),
            crate::conflict::texts_sorted(crate::wire::str_views(out@)),
            crate::wire::str_views(out@).to_set() == Set::new(|d: Seq<char>| exists|k: int| 0 <= k < i && #[trigger] v@[k].0@ == d),
        decreases v@.len() - i,
    {
        let name = v[i].0.clone();
        crate::conflict::insert_text(&mut out, name);
        proof {
            assert(crate::wire::str_views(out@).to_set() =~= Set::new(|d: Seq<char>| exists|k: int| 0 <= k < i + 1 && #[trigger] v@[k].0@ == d)) by {
                assert forall|d: Seq<char>| (exists|k: int| 0 <= k < i + 1 && #[trigger] v@[k].0@ == d) implies
                    crate::wire::str_views(out@).to_set().contains(d) by {
                    let k = choose|k: int| 0 <= k < i + 1 && #[trigger] v@[k].0@ == d;
                    if k < i {
                        assert(exists|k2: int| 0 <= k2 < i && #[trigger] v@[k2].0@ == d);
                    }
                }
            }
        }
        i += 1;
    }
    out
}

/// The frequency listed under name `d`.
fn tf_of(v: &Vec<(String, u32)>, d: &str) -> (r: u32)
    requires
        names_distinct(nameds_view(v@)),
        named_map(nameds_view(v@)).contains_key(d@),
    ensures
        r == named_map(nameds_view(v@))[d@],
{
    let ghost nv = nameds_view(v@);
    proof {
        lemma_named_map(nv, d@);
    }
    let mut i: usize = 0;
    while i < v.len()
        invariant
            0 <= i <= v@.len(),
            nv == nameds_view(v@),
            names_distinct(nv),
            named_map(nv).contains_key(d@),
            forall|k: int| 0 <= k < i ==> (#[trigger] nv[k]).0 != d@,
        decreases v@.len() - i,
    {
        if crate::text::same_text(v[i].0.as_str(), d) {
            proof {
                assert(nv[i as int].0 == d@);
                lemma_named_map(nv, d@);
            }
            return v[i].1;
        }
        i += 1;
    }
    proof {
        lemma_named_map(nv, d@);
        let k = choose|k: int| 0 <= k < nv.len() && nv[k].0 == d@;
        assert(nv[k].0 != d@);
    }
    0
}

impl LexicalIndex {
    /// The terms with postings, sorted.
    fn sorted_terms(&self) -> (r: Vec<String>)
        requires
            self.wf(),
        ensures
            crate::conflict::texts_sorted(crate::wire::str_views(r@)),
            crate::wire::str_views(r@).to_set() == term_set(self@.postings),
    {
        let ghost pv = triples_view(self.postings@);
        let mut out: Vec<String> = Vec::new();
        let mut i: usize = 0;
        proof {
            assert(crate::wire::str_views(out@).to_set() =~= Set::new(|t: Seq<char>| exists|k: int| 0 <= k < 0 && #[trigger] pv[k].0 == t));
        }
        while i < self.postings.len()
            invariant
                0 <= i <= self.postings@.len(),
                pv == triples_view(self.postings@),
                crate::conflict::texts_sorted(crate::wire::str_views(out@)),
                crate::wire::str_views(out@).to_set() == Set::new(|t: Seq<char>| exists|k: int| 0 <= k < i && #[trigger] pv[k].0 == t),
            decreases self.postings@.len() - i,
        {
            let term = self.postings[i].0.clone();
            assert(term@ == pv[i as int].0);
            crate::conflict::insert_text(&mut out, term);
            proof {
                assert(crate::wire::str_views(out@).to_set() =~= Set::new(|t: Seq<char>| exists|k: int| 0 <= k < i + 1 && #[trigger] pv[k].0 == t)) by {
                    assert forall|t: Seq<char>| (exists|k: int| 0 <= k < i + 1 && #[trigger] pv[k].0 == t) implies
                        crate::wire::str_views(out@).to_set().contains(t) by {
                        let k = choose|k: int| 0 <= k < i + 1 && #[trigger] pv[k].0 == t;
                        if k < i {
                            assert(exists|k2: int| 0 <= k2 < i && #[trigger] pv[k2].0 == t);
                        }
                    }
                }
            }
            i += 1;
        }
        proof {
            assert(crate::wire::str_views(out@).to_set() =~= term_set(self@.postings)) by {
                assert forall|t: Seq<char>| #[trigger] term_set(self@.postings).contains(t) <==> (exists|k: int|
                    0 <= k < pv.len() && #[trigger] pv[k].0 == t) by {
                    if term_set(self@.postings).contains(t) {
                        let d = choose|d: Seq<char>| #[trigger] self@.postings.contains_key((t, d));
                        lemma_pairs_map(pv, (t, d));
                        let k = choose|k: int| 0 <= k < pv.len() && (pv[k].0, pv[k].1) == (t, d);
                        assert(pv[k].0 == t);
                    }
                    if exists|k: int| 0 <= k < pv.len() && #[trigger] pv[k].0 == t {
                        let k = choose|k: int| 0 <= k < pv.len() && #[trigger] pv[k].0 == t;
                        lemma_pairs_map(pv, (t, pv[k].1));
                        assert(self@.postings.contains_key((t, pv[k].1)));
                    }
                }
            }
        }
        out
    }

    /// Mixes the index's content into `h` in canonical order (terms
    /// ascending, each with its documents ascending), so two indexes with the
    /// same content give the same fingerprint whatever their insertion order.
    pub fn fp_mix_into(&self, h: u64) -> (r: u64)
        requires
            self.wf(),
        ensures
            r == index_fingerprint(h, self@),
    {
        let ts = self.sorted_terms();
        let ghost tv = crate::wire::str_views(ts@);
        let ghost p = self@.postings;
        proof {
            lemma_ordered_is(tv, term_set(p));
        }
        let mut acc = crate::fingerprint::fp_mix_u64(h, self.n_docs as u64);
        acc = crate::fingerprint::fp_mix_u64(acc, ts.len() as u64);
        let ghost h1 = acc;
        let mut j: usize = 0;
        while j < ts.len()
            invariant
                self.wf(),
                p == self@.postings,
                tv == crate::wire::str_views(ts@),
                0 <= j <= ts@.len(),
                acc == mix_terms(h1, p, tv.take(j as int)),
            decreases ts@.len() - j,
        {
            let t = ts[j].as_str();
            assert(t@ == tv[j as int]);
            let plist = self.postings_of(t);
            let ds = sorted_names(&plist);
            let ghost dv = crate::wire::str_views(ds@);
            proof {
                let nv = nameds_view(plist@);
                assert(dv.to_set() =~= doc_set(p, t@)) by {
                    assert forall|d: Seq<char>| #[trigger] dv.to_set().contains(d) <==> doc_set(p, t@).contains(d) by {
                        lemma_named_map(nv, d);
                        if dv.to_set().contains(d) {
                            let k = choose|k: int| 0 <= k < plist@.len() && #[trigger] plist@[k].0@ == d;
                            assert(nv[k].0 == d);
                        }
                        if doc_set(p, t@).contains(d) {
                            assert(named_map(nv).contains_key(d));
                            let k = choose|k: int| 0 <= k < nv.len() && nv[k].0 == d;
                            assert(plist@[k].0@ == d);
                        }
                    }
                }
                lemma_ordered_is(dv, doc_set(p, t@));
            }
            let mut a2 = crate::fingerprint::fp_mix_str(acc, t);
            a2 = crate::fingerprint::fp_mix_u64(a2, ds.len() as u64);
            let ghost h2 = a2;
            let mut x: usize = 0;
            while x < ds.len()
                invariant
                    dv == crate::wire::str_views(ds@),
                    dv.to_set() == doc_set(p, t@),
                    names_distinct(nameds_view(plist@)),
                    named_map(nameds_view(plist@)) == Map::new(
                        |d: Seq<char>| p.contains_key((t@, d)),
                        |d: Seq<char>| p[(t@, d)],
                    ),
                    0 <= x <= ds@.len(),
                    a2 == mix_docs(h2, p, t@, dv.take(x as int)),
                decreases ds@.len() - x,
            {
                let d = ds[x].as_str();
                assert(d@ == dv[x as int]);
                proof {
                    assert(dv.to_set().contains(dv[x as int]));
                    assert(named_map(nameds_view(plist@)).contains_key(d@));
                }
                let tf = tf_of(&plist, d);
                a2 = crate::fingerprint::fp_mix_str(a2, d);
                a2 = crate::fingerprint::fp_mix_u64(a2, tf as u64);
                proof {
                    assert(dv.take(x + 1).drop_last() =~= dv.take(x as int));
                    assert(tf == p[(t@, d@)]);
                }
                x += 1;
            }
            proof {
                assert(dv.take(x as int) =~= dv);
                assert(tv.take(j + 1).drop_last() =~= tv.take(j as int));
            }
            acc = a2;
            j += 1;
        }
        proof {
            assert(tv.take(j as int) =~= tv);
        }
        acc
    }
}

/// The postings after indexing `ka` then `kb`.
pub open spec fn add_two(p: Map<(Seq<char>, Seq<char>), u32>, ka: Seq<char>, ta: Seq<Seq<char>>, kb: Seq<char>, tb: Seq<Seq<char>>) -> Map<(Seq<char>, Seq<char>), u32> {
    with_doc(without_doc(with_doc(without_doc(p, ka), ka, ta), kb), kb, tb)
}

/// Insertion order does not matter: indexing two different documents in
/// either order gives the same postings, and so the same fingerprint for the
/// same document count.
pub proof fn law_add_order_irrelevant(
    p: Map<(Seq<char>, Seq<char>), u32>,
    ka: Seq<char>,
    ta: Seq<Seq<char>>,
    kb: Seq<char>,
    tb: Seq<Seq<char>>,
    doc_len: Map<Seq<char>, u32>,
    n_docs: u32,
    h: u64,
)
    requires
        ka != kb,
    ensures
        add_two(p, ka, ta, kb, tb) == add_two(p, kb, tb, ka, ta),
        index_fingerprint(h, LexModel { postings: add_two(p, ka, ta, kb, tb), doc_len, n_docs }) == index_fingerprint(
            h,
            LexModel { postings: add_two(p, kb, tb, ka, ta), doc_len, n_docs },
        ),
{
    assert(add_two(p, ka, ta, kb, tb) =~= add_two(p, kb, tb, ka, ta));
}

} // verus!
