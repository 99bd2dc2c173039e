//! Byte-wise lexicographic order: the order of `[u8]` and of `str`, whose
//! comparison goes by the UTF-8 bytes.
use vstd::prelude::*;

verus! {

/// `a` sorts strictly before `b`: at the first differing byte `a` is smaller,
/// or `a` is a proper prefix of `b`.
pub open spec fn bytes_lt(a: Seq<u8>, b: Seq<u8>) -> bool
    decreases a.len(),
{
    if a.len() == 0 {
        b.len() > 0
    } else if b.len() == 0 {
        false
    } else if a[0] != b[0] {
        a[0] < b[0]
    } else {
        bytes_lt(a.drop_first(), b.drop_first())
    }
}

/// Nothing sorts before itself.
pub proof fn lemma_lt_irreflexive(a: Seq<u8>)
    ensures
        !bytes_lt(a, a),
    decreases a.len(),
{
    if a.len() > 0 {
        lemma_lt_irreflexive(a.drop_first());
    }
}

/// The order is transitive.
pub proof fn lemma_lt_transitive(a: Seq<u8>, b: Seq<u8>, c: Seq<u8>)
    requires
        bytes_lt(a, b),
        bytes_lt(b, c),
    ensures
        bytes_lt(a, c),
    decreases a.len(),
{
    if a.len() > 0 && b.len() > 0 && c.len() > 0 && a[0] == b[0] && b[0] == c[0] {
        lemma_lt_transitive(a.drop_first(), b.drop_first(), c.drop_first());
    }
}

/// Two sequences are equal or one sorts before the other.
pub proof fn lemma_lt_total(a: Seq<u8>, b: Seq<u8>)
    ensures
        a == b || bytes_lt(a, b) || bytes_lt(b, a),
    decreases a.len(),
{
    if a.len() == 0 && b.len() == 0 {
        assert(a =~= b);
    } else if a.len() > 0 && b.len() > 0 && a[0] == b[0] {
        lemma_lt_total(a.drop_first(), b.drop_first());
        if a.drop_first() == b.drop_first() {
            assert(a =~= seq![a[0]] + a.drop_first());
            assert(b =~= seq![b[0]] + b.drop_first());
        }
    }
}

/// The order is asymmetric.
pub proof fn lemma_lt_asymmetric(a: Seq<u8>, b: Seq<u8>)
    requires
        bytes_lt(a, b),
    ensures
        !bytes_lt(b, a),
{
    if bytes_lt(b, a) {
        lemma_lt_transitive(a, b, a);
        lemma_lt_irreflexive(a);
    }
}

/// Equal up to `i`, smaller at `i`: sorts before.
proof fn lemma_lt_at(a: Seq<u8>, b: Seq<u8>, i: int)
    requires
        0 <= i < a.len(),
        i < b.len(),
        a.take(i) == b.take(i),
        a[i] < b[i],
    ensures
        bytes_lt(a, b),
    decreases i,
{
    if i > 0 {
        assert(a.take(i)[0] == a[0]);
        assert(b.take(i)[0] == b[0]);
        assert(a[0] == b[0]);
        assert(a.drop_first()[i - 1] == a[i]);
        assert(b.drop_first()[i - 1] == b[i]);
        assert(a.drop_first().take(i - 1) =~= a.take(i).drop_first());
        assert(b.drop_first().take(i - 1) =~= b.take(i).drop_first());
        lemma_lt_at(a.drop_first(), b.drop_first(), i - 1);
    }
}

/// A prefix sorts before exactly when it is proper.
proof fn lemma_lt_prefix(a: Seq<u8>, b: Seq<u8>)
    requires
        a.len() <= b.len(),
        a == b.take(a.len() as int),
    ensures
        bytes_lt(a, b) == (a.len() < b.len()),
        bytes_lt(b, a) == false,
    decreases a.len(),
{
    if a.len() > 0 {
        assert(a[0] == b.take(a.len() as int)[0]);
        assert(a.drop_first() =~= b.drop_first().take(a.len() - 1));
        lemma_lt_prefix(a.drop_first(), b.drop_first());
    }
}

/// Three-way comparison of byte strings: negative, zero or positive as `a`
/// sorts before, equal to, or after `b`.
pub fn order_bytes(a: &[u8], b: &[u8]) -> (r: i8)
    ensures
        (r == 0) == (a@ == b@),
        (r < 0) == bytes_lt(a@, b@),
        (r > 0) == bytes_lt(b@, a@),
{
    let mut i: usize = 0;
    while i < a.len() && i < b.len()
        invariant
            0 <= i <= a@.len(),
            i <= b@.len(),
            a@.take(i as int) == b@.take(i as int),
        decreases a@.len() - i,
    {
        if a[i] != b[i] {
            proof {
                if a@[i as int] < b@[i as int] {
                    lemma_lt_at(a@, b@, i as int);
                    lemma_lt_asymmetric(a@, b@);
                } else {
                    lemma_lt_at(b@, a@, i as int);
                    lemma_lt_asymmetric(b@, a@);
                }
                assert(a@[i as int] != b@[i as int]);
            }
            if a[i] < b[i] {
                return -1;
            } else {
                return 1;
            }
        }
        assert(a@.take(i + 1) =~= a@.take(i as int).push(a@[i as int]));
        assert(b@.take(i + 1) =~= b@.take(i as int).push(b@[i as int]));
        i += 1;
    }
    proof {
        if i == a.len() {
            assert(a@.take(i as int) =~= a@);
            lemma_lt_prefix(a@, b@);
            if a.len() == b.len() {
                assert(b@.take(i as int) =~= b@);
            } else {
                assert(a@.len() != b@.len());
            }
        } else {
            assert(b@.take(i as int) =~= b@);
            lemma_lt_prefix(b@, a@);
            assert(a@.len() != b@.len());
        }
    }
    if a.len() == b.len() {
        0
    } else if a.len() < b.len() {
        -1
    } else {
        1
    }
}

} // verus!
