//! Text decoding at the boundary between bytes and strings.
use vstd::prelude::*;
use vstd::utf8::{valid_utf8, decode_utf8};
use vstd::prelude::StringExecFns;
use vstd::utf8::encode_utf8;
use vstd::string::StringSliceAdditionalSpecFns;
use crate::order::order_bytes;
use vstd::std_specs::iter::IteratorSpec;

verus! {

/// `core::str::from_utf8`: the bytes read as text when they are valid
/// UTF-8 (the text being their decoding), `None` when they are not.
#[verifier::external_body]
pub(crate) fn utf8_str(b: &[u8]) -> (r: Option<&str>)
    ensures
        r is Some <==> valid_utf8(b@),
        r matches Some(s) ==> s@ == decode_utf8(b@),
{
    match core::str::from_utf8(b) {
        Ok(s) => Some(s),
        Err(_) => None,
    }
}

/// Lower-case hex digit of a nibble.
pub open spec fn hex_char(v: u64) -> char {
    if v < 10 {
        (48 + v) as char
    } else {
        (87 + v) as char
    }
}

/// Hex digits of bytes, high nibble first, byte after byte.
pub open spec fn bytes_hex(bs: Seq<u8>) -> Seq<char>
    decreases bs.len(),
{
    if bs.len() == 0 {
        Seq::empty()
    } else {
        bytes_hex(bs.drop_last()) + seq![hex_char((bs.last() >> 4u8) as u64), hex_char((bs.last() & 15u8) as u64)]
    }
}

/// Nibble `i` (most significant first) of `x`.
pub open spec fn nibble(x: u64, i: int) -> u64 {
    (x >> ((60 - 4 * i) as u64)) & 15u64
}

/// Sixteen lower-case hex digits of `x`, most significant first.
pub open spec fn hex16_text(x: u64) -> Seq<char> {
    Seq::new(16, |i: int| hex_char(nibble(x, i)))
}

/// The one-character text of a nibble's hex digit.
fn nibble_str(v: u8) -> (r: &'static str)
    requires
        v < 16,
    ensures
        r@ == seq![hex_char(v as u64)],
{
    match v {
        0 => {
            proof {
                reveal_strlit("0");
            }
            "0"
        },
        1 => {
            proof {
                reveal_strlit("1");
            }
            "1"
        },
        2 => {
            proof {
                reveal_strlit("2");
            }
            "2"
        },
        3 => {
            proof {
                reveal_strlit("3");
            }
            "3"
        },
        4 => {
            proof {
                reveal_strlit("4");
            }
            "4"
        },
        5 => {
            proof {
                reveal_strlit("5");
            }
            "5"
        },
        6 => {
            proof {
                reveal_strlit("6");
            }
            "6"
        },
        7 => {
            proof {
                reveal_strlit("7");
            }
            "7"
        },
        8 => {
            proof {
                reveal_strlit("8");
            }
            "8"
        },
        9 => {
            proof {
                reveal_strlit("9");
            }
            "9"
        },
        10 => {
            proof {
                reveal_strlit("a");
            }
            "a"
        },
        11 => {
            proof {
                reveal_strlit("b");
            }
            "b"
        },
        12 => {
            proof {
                reveal_strlit("c");
            }
            "c"
        },
        13 => {
            proof {
                reveal_strlit("d");
            }
            "d"
        },
        14 => {
            proof {
                reveal_strlit("e");
            }
            "e"
        },
        15 => {
            proof {
                reveal_strlit("f");
            }
            "f"
        },
        _ => {
            proof {
                reveal_strlit("f");
            }
            "f"
        },
    }
}

/// Appends the two hex digits of a byte.
pub fn push_hex_byte(s: &mut String, b: u8)
    ensures
        final(s)@ == old(s)@ + seq![hex_char((b >> 4u8) as u64), hex_char((b & 15u8) as u64)],
{
    let hi = b >> 4;
    let lo = b & 15;
    assert(hi < 16) by (bit_vector)
        requires
            hi == b >> 4u8;
    assert(lo < 16) by (bit_vector)
        requires
            lo == b & 15u8;
    s.append(nibble_str(hi));
    s.append(nibble_str(lo));
    assert(final(s)@ =~= old(s)@ + seq![hex_char((b >> 4u8) as u64), hex_char((b & 15u8) as u64)]);
}

/// Hex text of bytes.
pub fn hex_bytes(bs: &[u8]) -> (r: String)
    ensures
        r@ == bytes_hex(bs@),
{
    let mut s = String::new();
    let mut i: usize = 0;
    while i < bs.len()
        invariant
            0 <= i <= bs@.len(),
            s@ == bytes_hex(bs@.take(i as int)),
        decreases bs@.len() - i,
    {
        push_hex_byte(&mut s, bs[i]);
        assert(bs@.take(i + 1).drop_last() =~= bs@.take(i as int));
        i += 1;
    }
    assert(bs@.take(i as int) =~= bs@);
    s
}

/// Appends the sixteen hex digits of `x`, most significant first.
pub fn push_hex16(s: &mut String, x: u64)
    ensures
        final(s)@ == old(s)@ + hex16_text(x),
{
    let ghost start = old(s)@;
    let mut i: u64 = 0;
    while i < 16
        invariant
            0 <= i <= 16,
            s@ == start + hex16_text(x).take(i as int),
        decreases 16 - i,
    {
        let sh = 60 - 4 * i;
        let v = (x >> sh) & 15;
        assert(v < 16) by (bit_vector)
            requires
                v == (x >> sh) & 15u64;
        s.append(nibble_str(v as u8));
        proof {
            assert(v == nibble(x, i as int));
            assert(hex16_text(x).take(i + 1) =~= hex16_text(x).take(i as int).push(hex_char(v)));
        }
        i += 1;
    }
    assert(hex16_text(x).take(16) =~= hex16_text(x));
}

/// Whether two strings hold the same text (compared by their bytes).
pub fn same_text(a: &str, b: &str) -> (r: bool)
    ensures
        r == (a@ == b@),
{
    let r = order_bytes(a.as_bytes(), b.as_bytes()) == 0;
    proof {
        vstd::utf8::encode_utf8_decode_utf8(a@);
        vstd::utf8::encode_utf8_decode_utf8(b@);
    }
    r
}

/// The characters of a text, in order.
pub fn chars_of(s: &str) -> (r: Vec<char>)
    ensures
        r@ == s@,
{
    let mut out: Vec<char> = Vec::new();
    for c in it: s.chars()
        invariant
            it.seq() == s@,
            out@ == s@.take(it.index() as int),
    {
        proof {
            assert(s@.take(it.index() + 1) =~= s@.take(it.index() as int).push(c));
        }
        out.push(c);
    }
    proof {
        assert(s@.take(s@.len() as int) =~= s@);
    }
    out
}

} // verus!
