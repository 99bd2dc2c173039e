//! Little-endian field readers and writers shared by the binary codecs.
use vstd::prelude::*;
use vstd::bytes::*;
use vstd::slice::*;
use vstd::utf8::{valid_utf8, decode_utf8, encode_utf8, encode_utf8_decode_utf8, decode_utf8_encode_utf8};
use crate::text::utf8_str;

verus! {

/// Appends the two little-endian bytes of `x`.
pub fn push_u16(out: &mut Vec<u8>, x: u16)
    ensures
        final(out)@ == old(out)@ + spec_u16_to_le_bytes(x),
{
    let b = u16_to_le_bytes(x);
    out.extend_from_slice(b.as_slice());
}

/// Appends the four little-endian bytes of `x`.
pub fn push_u32(out: &mut Vec<u8>, x: u32)
    ensures
        final(out)@ == old(out)@ + spec_u32_to_le_bytes(x),
{
    let b = u32_to_le_bytes(x);
    out.extend_from_slice(b.as_slice());
}

/// Appends the eight little-endian bytes of `x`.
pub fn push_u64(out: &mut Vec<u8>, x: u64)
    ensures
        final(out)@ == old(out)@ + spec_u64_to_le_bytes(x),
{
    let b = u64_to_le_bytes(x);
    out.extend_from_slice(b.as_slice());
}

/// Appends a whole byte slice.
pub fn push_bytes(out: &mut Vec<u8>, b: &[u8])
    ensures
        final(out)@ == old(out)@ + b@,
{
    out.extend_from_slice(b);
}

/// Reads a little-endian `u16` at `off`, `None` past the end.
pub fn rd_u16(data: &[u8], off: usize) -> (r: Option<u16>)
    ensures
        r == (if off + 2 <= data@.len() {
            Some(spec_u16_from_le_bytes(data@.subrange(off as int, off + 2)))
        } else {
            None::<u16>
        }),
{
    if off <= data.len() && data.len() - off >= 2 {
        Some(u16_from_le_bytes(slice_subrange(data, off, off + 2)))
    } else {
        None
    }
}

/// Reads a little-endian `u32` at `off`, `None` past the end.
pub fn rd_u32(data: &[u8], off: usize) -> (r: Option<u32>)
    ensures
        r == (if off + 4 <= data@.len() {
            Some(spec_u32_from_le_bytes(data@.subrange(off as int, off + 4)))
        } else {
            None::<u32>
        }),
{
    if off <= data.len() && data.len() - off >= 4 {
        Some(u32_from_le_bytes(slice_subrange(data, off, off + 4)))
    } else {
        None
    }
}

/// Reads a little-endian `u64` at `off`, `None` past the end.
pub fn rd_u64(data: &[u8], off: usize) -> (r: Option<u64>)
    ensures
        r == (if off + 8 <= data@.len() {
            Some(spec_u64_from_le_bytes(data@.subrange(off as int, off + 8)))
        } else {
            None::<u64>
        }),
{
    if off <= data.len() && data.len() - off >= 8 {
        Some(u64_from_le_bytes(slice_subrange(data, off, off + 8)))
    } else {
        None
    }
}

/// `d` begins with the bytes `w`.
pub open spec fn starts_with(d: Seq<u8>, w: Seq<u8>) -> bool {
    w.len() <= d.len() && d.subrange(0, w.len() as int) == w
}

/// Bytes and slices of a prefix are those of the whole.
pub proof fn lemma_starts_with(d: Seq<u8>, w: Seq<u8>)
    requires
        starts_with(d, w),
    ensures
        w.len() <= d.len(),
        forall|k: int| 0 <= k < w.len() ==> d[k] == w[k],
        forall|a: int, b: int| 0 <= a <= b <= w.len() ==> d.subrange(a, b) == w.subrange(a, b),
{
    assert forall|k: int| 0 <= k < w.len() implies d[k] == w[k] by {
        assert(d.subrange(0, w.len() as int)[k] == d[k]);
    }
    assert forall|a: int, b: int| 0 <= a <= b <= w.len() implies d.subrange(a, b) == w.subrange(a, b) by {
        assert(d.subrange(a, b) =~= w.subrange(a, b));
    }
}

/// Decoding an encoded integer gives it back, and every encoding has its width.
pub proof fn lemma_le_bytes_roundtrip()
    ensures
        forall|x: u16|
            #![trigger spec_u16_to_le_bytes(x)]
            spec_u16_to_le_bytes(x).len() == 2 && spec_u16_from_le_bytes(spec_u16_to_le_bytes(x))
                == x,
        forall|x: u32|
            #![trigger spec_u32_to_le_bytes(x)]
            spec_u32_to_le_bytes(x).len() == 4 && spec_u32_from_le_bytes(spec_u32_to_le_bytes(x))
                == x,
        forall|x: u64|
            #![trigger spec_u64_to_le_bytes(x)]
            spec_u64_to_le_bytes(x).len() == 8 && spec_u64_from_le_bytes(spec_u64_to_le_bytes(x))
                == x,
        forall|s: Seq<u8>|
            #![trigger spec_u16_to_le_bytes(spec_u16_from_le_bytes(s))]
            s.len() == 2 ==> spec_u16_to_le_bytes(spec_u16_from_le_bytes(s)) == s,
        forall|s: Seq<u8>|
            #![trigger spec_u32_to_le_bytes(spec_u32_from_le_bytes(s))]
            s.len() == 4 ==> spec_u32_to_le_bytes(spec_u32_from_le_bytes(s)) == s,
        forall|s: Seq<u8>|
            #![trigger spec_u64_to_le_bytes(spec_u64_from_le_bytes(s))]
            s.len() == 8 ==> spec_u64_to_le_bytes(spec_u64_from_le_bytes(s)) == s,
{
    lemma_auto_spec_u16_to_from_le_bytes();
    lemma_auto_spec_u32_to_from_le_bytes();
    lemma_auto_spec_u64_to_from_le_bytes();
}

/// `d` holds the bytes `w` at offset `off`.
pub open spec fn bytes_at(d: Seq<u8>, off: int, w: Seq<u8>) -> bool {
    0 <= off && off + w.len() <= d.len() && d.subrange(off, off + w.len()) == w
}

/// A field at `off` followed by another right after it.
pub proof fn lemma_bytes_at_concat(d: Seq<u8>, off: int, a: Seq<u8>, b: Seq<u8>)
    ensures
        bytes_at(d, off, a + b) <==> bytes_at(d, off, a) && bytes_at(d, off + a.len(), b),
{
    if bytes_at(d, off, a + b) {
        let w = d.subrange(off, off + a.len() + b.len());
        assert(w == a + b);
        assert(d.subrange(off, off + a.len()) =~= w.subrange(0, a.len() as int));
        assert(w.subrange(0, a.len() as int) =~= a);
        assert(d.subrange(off + a.len(), off + a.len() + b.len()) =~= w.subrange(
            a.len() as int,
            (a + b).len() as int,
        ));
        assert(w.subrange(a.len() as int, (a + b).len() as int) =~= b);
    }
    if bytes_at(d, off, a) && bytes_at(d, off + a.len(), b) {
        assert(d.subrange(off, off + (a + b).len()) =~= d.subrange(off, off + a.len()) + d.subrange(
            off + a.len(),
            off + a.len() + b.len(),
        ));
    }
}

/// A prefix of a field sits where the field does.
pub proof fn lemma_bytes_at_prefix(d: Seq<u8>, off: int, w: Seq<u8>, k: int)
    requires
        bytes_at(d, off, w),
        0 <= k <= w.len(),
    ensures
        bytes_at(d, off, w.subrange(0, k)),
{
    assert(d.subrange(off, off + k) =~= d.subrange(off, off + w.len()).subrange(0, k));
}

/// Bytes of a string field: its UTF-8 length as a little-endian `u16`,
/// then its UTF-8 bytes.
pub open spec fn str16_wire(s: Seq<char>) -> Seq<u8> {
    spec_u16_to_le_bytes(encode_utf8(s).len() as u16) + encode_utf8(s)
}

/// Appends a string field (the length is cut to 16 bits).
pub fn push_str16(out: &mut Vec<u8>, s: &str)
    ensures
        final(out)@ == old(out)@ + str16_wire(s@),
{
    let b = s.as_bytes();
    push_u16(out, b.len() as u16);
    push_bytes(out, b);
    assert(final(out)@ =~= old(out)@ + str16_wire(s@));
}

/// Why a string field could not be read.
pub enum StrFieldError {
    /// The length is cut off.
    TruncLen,
    /// The end offset overflows.
    Overflow,
    /// The bytes are cut off.
    TruncBytes,
    /// The bytes are not UTF-8.
    Utf8,
}

/// Reads a string field at `off`: the string and the offset past it.
pub fn read_str16(data: &[u8], off: usize) -> (r: Result<(String, usize), StrFieldError>)
    ensures
        r matches Ok((s, o2)) ==> o2 == off + str16_wire(s@).len() && bytes_at(
            data@,
            off as int,
            str16_wire(s@),
        ) && encode_utf8(s@).len() <= u16::MAX,
        r matches Err(e) ==> (e is TruncLen <==> off + 2 > data@.len()),
        forall|s: Seq<char>|
            encode_utf8(s).len() <= u16::MAX && #[trigger] bytes_at(data@, off as int, str16_wire(s))
                ==> (r matches Ok((t, o2)) && t@ == s && o2 == off + str16_wire(s).len()),
{
    proof {
        lemma_le_bytes_roundtrip();
    }
    if off > data.len() || data.len() - off < 2 {
        proof {
            assert forall|s: Seq<char>|
                encode_utf8(s).len() <= u16::MAX && #[trigger] bytes_at(data@, off as int, str16_wire(s))
                implies false by {}
        }
        return Err(StrFieldError::TruncLen);
    }
    let len = match rd_u16(data, off) {
        Some(l) => l as usize,
        None => 0,
    };
    let start = off + 2;
    let end = match start.checked_add(len) {
        Some(e) => e,
        None => {
            proof {
                assert forall|s: Seq<char>|
                    encode_utf8(s).len() <= u16::MAX && #[trigger] bytes_at(data@, off as int, str16_wire(s))
                    implies false by {
                    lemma_bytes_at_concat(data@, off as int, spec_u16_to_le_bytes(encode_utf8(s).len() as u16), encode_utf8(s));
                }
            }
            return Err(StrFieldError::Overflow);
        },
    };
    if end > data.len() {
        proof {
            assert forall|s: Seq<char>|
                encode_utf8(s).len() <= u16::MAX && #[trigger] bytes_at(data@, off as int, str16_wire(s))
                implies false by {
                lemma_bytes_at_concat(data@, off as int, spec_u16_to_le_bytes(encode_utf8(s).len() as u16), encode_utf8(s));
                assert(data@.subrange(off as int, off + 2) == spec_u16_to_le_bytes(encode_utf8(s).len() as u16));
            }
        }
        return Err(StrFieldError::TruncBytes);
    }
    let b = slice_subrange(data, start, end);
    match utf8_str(b) {
        Some(t) => {
            let s = t.to_owned();
            proof {
                decode_utf8_encode_utf8(b@);
                assert(encode_utf8(s@) == b@);
                lemma_bytes_at_concat(data@, off as int, spec_u16_to_le_bytes(len as u16), b@);
                assert(data@.subrange(off as int, off + 2) == spec_u16_to_le_bytes(len as u16));
                assert forall|s2: Seq<char>|
                    encode_utf8(s2).len() <= u16::MAX && #[trigger] bytes_at(data@, off as int, str16_wire(s2))
                    implies s@ == s2 by {
                    lemma_bytes_at_concat(data@, off as int, spec_u16_to_le_bytes(encode_utf8(s2).len() as u16), encode_utf8(s2));
                    assert(data@.subrange(off as int, off + 2) == spec_u16_to_le_bytes(encode_utf8(s2).len() as u16));
                    assert(encode_utf8(s2) == b@);
                    encode_utf8_decode_utf8(s2);
                    encode_utf8_decode_utf8(s@);
                }
            }
            Ok((s, end))
        },
        None => {
            proof {
                assert forall|s: Seq<char>|
                    encode_utf8(s).len() <= u16::MAX && #[trigger] bytes_at(data@, off as int, str16_wire(s))
                    implies false by {
                    lemma_bytes_at_concat(data@, off as int, spec_u16_to_le_bytes(encode_utf8(s).len() as u16), encode_utf8(s));
                    assert(data@.subrange(off as int, off + 2) == spec_u16_to_le_bytes(encode_utf8(s).len() as u16));
                    assert(encode_utf8(s) == b@);
                    vstd::utf8::encode_utf8_valid_utf8(s);
                }
            }
            Err(StrFieldError::Utf8)
        },
    }
}

/// Texts of a list of strings.
pub open spec fn str_views(v: Seq<String>) -> Seq<Seq<char>> {
    v.map_values(|s: String| s@)
}

/// Bytes of a list of string fields, one after the other.
pub open spec fn strs16_wire(ss: Seq<Seq<char>>) -> Seq<u8>
    decreases ss.len(),
{
    if ss.len() == 0 {
        Seq::empty()
    } else {
        strs16_wire(ss.drop_last()) + str16_wire(ss.last())
    }
}

/// Every string's UTF-8 length fits 16 bits.
pub open spec fn strs16_ok(ss: Seq<Seq<char>>) -> bool {
    forall|i: int| 0 <= i < ss.len() ==> encode_utf8(#[trigger] ss[i]).len() <= u16::MAX
}

pub proof fn lemma_strs16_step(ss: Seq<Seq<char>>, j: int)
    requires
        0 <= j < ss.len(),
    ensures
        strs16_wire(ss.take(j + 1)) == strs16_wire(ss.take(j)) + str16_wire(ss[j]),
{
    assert(ss.take(j + 1).drop_last() =~= ss.take(j));
}

pub proof fn lemma_strs16_prefix(ss: Seq<Seq<char>>, j: int)
    requires
        0 <= j <= ss.len(),
    ensures
        strs16_wire(ss.take(j)).len() <= strs16_wire(ss).len(),
        strs16_wire(ss).subrange(0, strs16_wire(ss.take(j)).len() as int) == strs16_wire(ss.take(j)),
    decreases ss.len(),
{
    if j == ss.len() {
        assert(ss.take(j) =~= ss);
    } else {
        lemma_strs16_prefix(ss.drop_last(), j);
        assert(ss.drop_last().take(j) =~= ss.take(j));
        let a = strs16_wire(ss.drop_last());
        let b = str16_wire(ss.last());
        assert((a + b).subrange(0, strs16_wire(ss.take(j)).len() as int) =~= a.subrange(
            0,
            strs16_wire(ss.take(j)).len() as int,
        ));
    }
}

/// Appends a list of string fields.
pub fn push_strs16(out: &mut Vec<u8>, v: &Vec<String>)
    ensures
        final(out)@ == old(out)@ + strs16_wire(str_views(v@)),
{
    let ghost head = old(out)@;
    let mut i: usize = 0;
    while i < v.len()
        invariant
            0 <= i <= v@.len(),
            out@ == head + strs16_wire(str_views(v@).take(i as int)),
        decreases v@.len() - i,
    {
        push_str16(out, v[i].as_str());
        proof {
            lemma_strs16_step(str_views(v@), i as int);
        }
        i += 1;
        assert(out@ =~= head + strs16_wire(str_views(v@).take(i as int)));
    }
    assert(str_views(v@).take(i as int) =~= str_views(v@));
}

/// Reads `n` string fields from `off`: the strings and the offset past
/// them.
pub fn read_strs16(data: &[u8], off: usize, n: usize) -> (r: Result<(Vec<String>, usize), StrFieldError>)
    requires
        off <= data@.len(),
    ensures
        r matches Ok((v, o2)) ==> v@.len() == n && strs16_ok(str_views(v@)) && bytes_at(
            data@,
            off as int,
            strs16_wire(str_views(v@)),
        ) && o2 == off + strs16_wire(str_views(v@)).len(),
        forall|ss: Seq<Seq<char>>|
            ss.len() == n && strs16_ok(ss) && #[trigger] bytes_at(data@, off as int, strs16_wire(ss))
                ==> (r matches Ok((v, o2)) && str_views(v@) == ss && o2 == off + strs16_wire(ss).len()),
{
    let mut v: Vec<String> = Vec::new();
    let mut o = off;
    let mut i: usize = 0;
    proof {
        assert(str_views(v@) =~= Seq::<Seq<char>>::empty());
        assert(strs16_wire(Seq::<Seq<char>>::empty()) =~= Seq::<u8>::empty());
        assert(data@.subrange(off as int, off as int) =~= Seq::<u8>::empty());
    }
    while i < n
        invariant
            0 <= i <= n,
            v@.len() == i,
            o == off + strs16_wire(str_views(v@)).len(),
            off <= data@.len(),
            bytes_at(data@, off as int, strs16_wire(str_views(v@))),
            strs16_ok(str_views(v@)),
            forall|ss: Seq<Seq<char>>|
                ss.len() == n && strs16_ok(ss) && #[trigger] bytes_at(data@, off as int, strs16_wire(ss))
                    ==> str_views(v@) == ss.take(i as int),
        decreases n - i,
    {
        let (t, o2) = match read_str16(data, o) {
            Ok(x) => x,
            Err(e) => {
                proof {
                    assert forall|ss: Seq<Seq<char>>|
                        ss.len() == n && strs16_ok(ss) && #[trigger] bytes_at(data@, off as int, strs16_wire(ss))
                        implies false by {
                        lemma_strs16_prefix(ss, i + 1);
                        lemma_strs16_step(ss, i as int);
                        lemma_bytes_at_prefix(data@, off as int, strs16_wire(ss), strs16_wire(ss.take(i + 1)).len() as int);
                        lemma_bytes_at_concat(data@, off as int, strs16_wire(ss.take(i as int)), str16_wire(ss[i as int]));
                    }
                }
                return Err(e);
            },
        };
        proof {
            assert(str_views(v@.push(t)) =~= str_views(v@).push(t@));
            lemma_strs16_step(str_views(v@).push(t@), i as int);
            assert(str_views(v@).push(t@).take(i as int) =~= str_views(v@));
            assert(str_views(v@).push(t@).take(i + 1) =~= str_views(v@).push(t@));
            lemma_bytes_at_concat(data@, off as int, strs16_wire(str_views(v@)), str16_wire(t@));
            assert forall|ss: Seq<Seq<char>>|
                ss.len() == n && strs16_ok(ss) && #[trigger] bytes_at(data@, off as int, strs16_wire(ss))
                implies str_views(v@).push(t@) == ss.take(i + 1) by {
                lemma_strs16_prefix(ss, i + 1);
                lemma_strs16_step(ss, i as int);
                lemma_bytes_at_prefix(data@, off as int, strs16_wire(ss), strs16_wire(ss.take(i + 1)).len() as int);
                lemma_bytes_at_concat(data@, off as int, strs16_wire(ss.take(i as int)), str16_wire(ss[i as int]));
                assert(ss.take(i + 1) =~= ss.take(i as int).push(ss[i as int]));
            }
        }
        v.push(t);
        o = o2;
        i += 1;
    }
    proof {
        if n == 0 {
            assert forall|ss: Seq<Seq<char>>|
                ss.len() == n && strs16_ok(ss) && #[trigger] bytes_at(data@, off as int, strs16_wire(ss))
                implies str_views(v@) == ss by {
                assert(ss =~= Seq::<Seq<char>>::empty());
            }
        } else {
            assert forall|ss: Seq<Seq<char>>|
                ss.len() == n && strs16_ok(ss) && #[trigger] bytes_at(data@, off as int, strs16_wire(ss))
                implies str_views(v@) == ss by {
                assert(ss.take(n as int) =~= ss);
            }
        }
    }
    Ok((v, o))
}


/// Little-endian bytes of a run of words.
pub open spec fn words_le(ws: Seq<u64>) -> Seq<u8>
    decreases ws.len(),
{
    if ws.len() == 0 {
        Seq::empty()
    } else {
        words_le(ws.drop_last()) + spec_u64_to_le_bytes(ws.last())
    }
}

/// Eight bytes per word, word `i` at offset `8 * i`.
pub proof fn lemma_words_le(ws: Seq<u64>)
    ensures
        words_le(ws).len() == 8 * ws.len(),
        forall|i: int| 0 <= i < ws.len() ==> #[trigger] words_le(ws).subrange(8 * i, 8 * i + 8) == spec_u64_to_le_bytes(ws[i]),
    decreases ws.len(),
{
    lemma_le_bytes_roundtrip();
    if ws.len() > 0 {
        let w = ws.drop_last();
        lemma_words_le(w);
        let a = words_le(w);
        let b = spec_u64_to_le_bytes(ws.last());
        assert forall|i: int| 0 <= i < ws.len() implies #[trigger] words_le(ws).subrange(8 * i, 8 * i + 8) == spec_u64_to_le_bytes(ws[i]) by {
            if i < w.len() {
                assert((a + b).subrange(8 * i, 8 * i + 8) =~= a.subrange(8 * i, 8 * i + 8));
                assert(w[i] == ws[i]);
            } else {
                assert((a + b).subrange(8 * i, 8 * i + 8) =~= b);
            }
        }
    }
}

/// Appends each word of `ws`, little-endian.
pub fn push_words(out: &mut Vec<u8>, ws: &[u64])
    ensures
        final(out)@ == old(out)@ + words_le(ws@),
{
    let ghost head = old(out)@;
    let mut i: usize = 0;
    while i < ws.len()
        invariant
            0 <= i <= ws@.len(),
            out@ == head + words_le(ws@.take(i as int)),
        decreases ws@.len() - i,
    {
        push_u64(out, ws[i]);
        proof {
            assert(ws@.take(i + 1).drop_last() =~= ws@.take(i as int));
        }
        i += 1;
        assert(out@ =~= head + words_le(ws@.take(i as int)));
    }
    assert(ws@.take(i as int) =~= ws@);
}

} // verus!
