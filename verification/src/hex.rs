//! Lowercase hexadecimal text for byte buffers, and its tolerant inverse.

use vstd::prelude::*;
use arrayvec::{ArrayString, ArrayVec};
use crate::bounded::{
    bytes_192, chars_384, hex_digit, new_192, new_384, push_192, slice_192, write_hex_384,
};
use vstd::utf8::{encode_utf8, is_ascii_chars};
use vstd::string::StringSliceAdditionalSpecFns;

verus! {

broadcast use vstd::utf8::is_ascii_chars_encode_utf8;

/// The value of one hexadecimal digit byte (`0-9`, `a-f`, `A-F`); any other
/// byte counts as zero.
pub open spec fn nib_value(b: u8) -> u8 {
    if 48 <= b <= 57 {
        (b - 48) as u8
    } else if 97 <= b <= 102 {
        (b - 87) as u8
    } else if 65 <= b <= 70 {
        (b - 55) as u8
    } else {
        0
    }
}

/// The byte written by the digit pair `hi`, `lo`.
pub open spec fn pair_byte(hi: u8, lo: u8) -> u8 {
    (nib_value(hi) * 16 + nib_value(lo)) as u8
}

/// The bytes that the digits `nibs` stand for. Digits are paired from the end:
/// with an odd count the first digit stands alone as a byte of its own.
pub open spec fn hex_decode(nibs: Seq<u8>) -> Seq<u8> {
    let off = nibs.len() % 2;
    let pairs = Seq::new(
        ((nibs.len() - off) / 2) as nat,
        |i: int| pair_byte(nibs[off + 2 * i], nibs[off + 2 * i + 1]),
    );
    if off == 1 {
        seq![nib_value(nibs[0])] + pairs
    } else {
        pairs
    }
}

/// The number of bytes that `nibs.len()` digits decode to.
pub open spec fn decoded_len(n: int) -> int {
    (n + 1) / 2
}

/// Two lowercase hexadecimal digits per byte, high digit first.
pub open spec fn hex_text(bytes: Seq<u8>) -> Seq<char> {
    Seq::new(
        2 * bytes.len(),
        |i: int|
            if i % 2 == 0 {
                hex_digit(bytes[i / 2] / 16)
            } else {
                hex_digit(bytes[i / 2] % 16)
            },
    )
}

/// The value of a hexadecimal digit byte.
pub fn hex_to_nib(b: u8) -> (r: u8)
    ensures
        r == nib_value(b),
        r < 16,
{
    if 48 <= b && b <= 57 {
        b - 48
    } else if 97 <= b && b <= 102 {
        b - 97 + 10
    } else if 65 <= b && b <= 70 {
        b - 65 + 10
    } else {
        0
    }
}

proof fn lemma_hex_digit_ascii(n: u8)
    requires
        0 <= n < 16,
    ensures
        '\0' <= hex_digit(n) <= '\u{7f}',
        nib_value(hex_digit(n) as u8) == n,
{
}

/// Hex text is plain ASCII.
pub proof fn lemma_hex_text_ascii(bytes: Seq<u8>)
    ensures
        is_ascii_chars(hex_text(bytes)),
{
    assert forall|i| 0 <= i < hex_text(bytes).len() implies '\0' <= #[trigger] hex_text(bytes)[i]
        <= '\u{7f}' by {
        lemma_hex_digit_ascii(bytes[i / 2] / 16);
        lemma_hex_digit_ascii(bytes[i / 2] % 16);
    }
}

/// Decoding the UTF-8 bytes of the hex text of `bytes` gives `bytes` back.
pub proof fn lemma_hex_roundtrip(bytes: Seq<u8>)
    ensures
        hex_decode(encode_utf8(hex_text(bytes))) == bytes,
{
    let t = hex_text(bytes);
    lemma_hex_text_ascii(bytes);
    let e = encode_utf8(t);
    assert(e.len() == t.len());
    let d = hex_decode(e);
    assert(e.len() % 2 == 0);
    assert forall|i| 0 <= i < bytes.len() implies #[trigger] d[i] == bytes[i] by {
        lemma_hex_digit_ascii(bytes[i] / 16);
        lemma_hex_digit_ascii(bytes[i] % 16);
        assert(e[2 * i] == t[2 * i] as u8);
        assert(e[2 * i + 1] == t[2 * i + 1] as u8);
        assert((2 * i) / 2 == i);
        assert((2 * i + 1) / 2 == i);
    }
    assert(d =~= bytes);
}

/// Writes each byte of `bytes` as two lowercase hexadecimal digits.
pub fn bytes_to_hex(bytes: &ArrayVec<u8, 192>) -> (s: ArrayString<384>)
    ensures
        chars_384(s) == hex_text(bytes_192(*bytes)),
{
    let src = slice_192(bytes);
    let mut s = new_384();
    let mut i: usize = 0;
    while i < src.len()
        invariant
            i <= src@.len() <= 192,
            chars_384(s) == hex_text(src@.take(i as int)),
            src@ == bytes_192(*bytes),
        decreases src@.len() - i,
    {
        proof {
            lemma_hex_text_ascii(src@.take(i as int));
        }
        let b = src[i];
        write_hex_384(&mut s, b);
        i = i + 1;
        assert(hex_text(src@.take(i as int)) =~= hex_text(src@.take(i - 1)) + seq![
            hex_digit(b / 16),
            hex_digit(b % 16),
        ]);
    }
    assert(src@.take(i as int) =~= src@);
    s
}

/// Decodes the digits `nibs[start..]` into bytes (see [`hex_decode`]).
pub fn nibbles_to_bytes(nibs: &[u8], start: usize) -> (v: ArrayVec<u8, 192>)
    requires
        start <= nibs@.len(),
        decoded_len(nibs@.len() - start) <= 192,
    ensures
        bytes_192(v) == hex_decode(nibs@.skip(start as int)),
{
    let ghost tail = nibs@.skip(start as int);
    let mut v = new_192();
    let offset: usize = (nibs.len() - start) % 2;
    if offset == 1 {
        push_192(&mut v, hex_to_nib(nibs[start]));
    }
    let mut i: usize = start + offset;
    let ghost first: Seq<u8> = if offset == 1 { seq![nib_value(tail[0])] } else { Seq::empty() };
    assert(bytes_192(v) == first);
    while i < nibs.len()
        invariant
            start <= i <= nibs@.len(),
            (i - start - offset) % 2 == 0,
            offset == (nibs@.len() - start) % 2,
            decoded_len(nibs@.len() - start) <= 192,
            tail == nibs@.skip(start as int),
            first == (if offset == 1 { seq![nib_value(tail[0])] } else { Seq::<u8>::empty() }),
            bytes_192(v) == first + hex_decode(tail).skip(offset as int).take(
                (i - start - offset) / 2,
            ),
        decreases nibs@.len() - i,
    {
        let hi = hex_to_nib(nibs[i]);
        let lo = hex_to_nib(nibs[i + 1]);
        assert((hi << 4u8) | lo == hi * 16 + lo) by (bit_vector)
            requires
                hi < 16,
                lo < 16,
        ;
        push_192(&mut v, (hi << 4) | lo);
        i = i + 2;
    }
    assert(hex_decode(tail).skip(offset as int).take((i - start - offset) / 2) =~= hex_decode(
        tail,
    ).skip(offset as int));
    assert(first + hex_decode(tail).skip(offset as int) =~= hex_decode(tail));
    v
}

/// Decodes hexadecimal text into bytes (see [`hex_decode`]).
pub fn hex_to_bytes(hex: &str) -> (v: ArrayVec<u8, 192>)
    requires
        decoded_len(hex.spec_bytes().len() as int) <= 192,
    ensures
        bytes_192(v) == hex_decode(hex.spec_bytes()),
{
    let nibs = hex.as_bytes();
    assert(nibs@.skip(0) =~= nibs@);
    nibbles_to_bytes(nibs, 0)
}

/// `str::starts_with` with a string pattern: whether `prefix` begins `s`,
/// compared byte for byte in UTF-8.
#[verifier::external_body]
pub(crate) fn starts_with(s: &str, prefix: &str) -> (r: bool)
    ensures
        r == (prefix.spec_bytes().len() <= s.spec_bytes().len() && s.spec_bytes().take(
            prefix.spec_bytes().len() as int,
        ) == prefix.spec_bytes()),
{
    s.starts_with(prefix)
}

} // verus!
