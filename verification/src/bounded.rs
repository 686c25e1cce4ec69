//! Fixed-capacity buffers from `arrayvec`, as the library uses them.
//!
//! Verus cannot look inside `ArrayVec` or `ArrayString`, so each buffer type the
//! library uses gets a name for what it holds (one per capacity, as such a name
//! takes no generic parameters), and each method the library calls on it gets
//! a small trusted wrapper whose contract says what the method does to that
//! content, as the `arrayvec` source shows it.

use vstd::prelude::*;
use arrayvec::{ArrayString, ArrayVec, CapacityError};
use core::fmt::Write;

verus! {

/// `arrayvec::ArrayVec`, opaque to Verus.
#[verifier::external_type_specification]
#[verifier::external_body]
#[verifier::reject_recursive_types(T)]
pub struct ExArrayVec<T, const CAP: usize>(ArrayVec<T, CAP>);

/// `arrayvec::ArrayString`, opaque to Verus.
#[verifier::external_type_specification]
#[verifier::external_body]
pub struct ExArrayString<const CAP: usize>(ArrayString<CAP>);

/// `arrayvec::CapacityError`, the error of a push that does not fit.
#[verifier::external_type_specification]
#[verifier::external_body]
#[verifier::reject_recursive_types(T)]
pub struct ExCapacityError<T>(CapacityError<T>);

/// The bytes held by a 192-byte buffer (the bead plate, or decoded hex).
pub uninterp spec fn bytes_192(v: ArrayVec<u8, 192>) -> Seq<u8>;

/// The characters held by a 384-byte string (hex text of a bead plate).
pub uninterp spec fn chars_384(s: ArrayString<384>) -> Seq<char>;

/// `ArrayVec::new`: an empty buffer.
#[verifier::external_body]
pub(crate) fn new_192() -> (r: ArrayVec<u8, 192>)
    ensures
        bytes_192(r) == Seq::<u8>::empty(),
{
    ArrayVec::new()
}

/// `ArrayVec::push`: appends one byte; it panics when the buffer is full, so a
/// free slot is required.
#[verifier::external_body]
pub(crate) fn push_192(v: &mut ArrayVec<u8, 192>, b: u8)
    requires
        bytes_192(*old(v)).len() < 192,
    ensures
        bytes_192(*final(v)) == bytes_192(*old(v)).push(b),
{
    v.push(b)
}

/// `ArrayVec::as_slice`: the held bytes, in order.
#[verifier::external_body]
pub(crate) fn slice_192(v: &ArrayVec<u8, 192>) -> (r: &[u8])
    ensures
        r@ == bytes_192(*v),
        r@.len() <= 192,
{
    v.as_slice()
}

/// `ArrayVec::clear`: removes every byte.
#[verifier::external_body]
pub(crate) fn clear_192(v: &mut ArrayVec<u8, 192>)
    ensures
        bytes_192(*final(v)) == Seq::<u8>::empty(),
{
    v.clear()
}

/// `ArrayVec::try_extend_from_slice`: appends all of `s` when it fits in the
/// remaining capacity and answers `Ok`; otherwise leaves the buffer as it was
/// and answers `Err`.
#[verifier::external_body]
pub(crate) fn extend_192(v: &mut ArrayVec<u8, 192>, s: &[u8]) -> (r: Result<(), CapacityError>)
    ensures
        r is Ok <==> bytes_192(*old(v)).len() + s@.len() <= 192,
        r is Ok ==> bytes_192(*final(v)) == bytes_192(*old(v)) + s@,
        r is Err ==> bytes_192(*final(v)) == bytes_192(*old(v)),
{
    v.try_extend_from_slice(s)
}

/// `ArrayString::new`: an empty string.
#[verifier::external_body]
pub(crate) fn new_384() -> (r: ArrayString<384>)
    ensures
        chars_384(r) == Seq::<char>::empty(),
{
    ArrayString::new()
}

/// The lowercase hexadecimal digit for `n < 16`.
pub open spec fn hex_digit(n: u8) -> char {
    if n < 10 {
        (48 + n) as char
    } else {
        (87 + n) as char
    }
}

/// `write!(s, "{b:02x}")` through `ArrayString`'s `fmt::Write`: appends the two
/// lowercase hexadecimal digits of `b`, high digit first. It fails only when
/// the string lacks room, which the requirement rules out.
#[verifier::external_body]
pub(crate) fn write_hex_384(s: &mut ArrayString<384>, b: u8)
    requires
        vstd::utf8::is_ascii_chars(chars_384(*old(s))),
        chars_384(*old(s)).len() + 2 <= 384,
    ensures
        chars_384(*final(s)) == chars_384(*old(s)) + seq![hex_digit(b / 16), hex_digit(b % 16)],
{
    write!(s, "{b:02x}").expect("hex fits capacity")
}

/// `ArrayString::as_str`: the held text.
#[verifier::external_body]
pub(crate) fn str_384(s: &ArrayString<384>) -> (r: &str)
    ensures
        r@ == chars_384(*s),
{
    s.as_str()
}

/// The bytes held by a 288-byte buffer (the big road).
pub uninterp spec fn bytes_288(v: ArrayVec<u8, 288>) -> Seq<u8>;

/// `ArrayVec::new`: an empty buffer.
#[verifier::external_body]
pub(crate) fn new_288() -> (r: ArrayVec<u8, 288>)
    ensures
        bytes_288(r) == Seq::<u8>::empty(),
{
    ArrayVec::new()
}

/// `ArrayVec::push`: appends one byte; a free slot is required.
#[verifier::external_body]
pub(crate) fn push_288(v: &mut ArrayVec<u8, 288>, b: u8)
    requires
        bytes_288(*old(v)).len() < 288,
    ensures
        bytes_288(*final(v)) == bytes_288(*old(v)).push(b),
{
    v.push(b)
}

/// `ArrayVec::pop`: removes and returns the last byte, `None` when empty.
#[verifier::external_body]
pub(crate) fn pop_288(v: &mut ArrayVec<u8, 288>) -> (r: Option<u8>)
    ensures
        bytes_288(*old(v)).len() == 0 ==> r is None && bytes_288(*final(v)) == bytes_288(*old(v)),
        bytes_288(*old(v)).len() > 0 ==> r == Some(bytes_288(*old(v)).last()) && bytes_288(
            *final(v),
        ) == bytes_288(*old(v)).drop_last(),
{
    v.pop()
}

/// `ArrayVec::as_slice`: the held bytes, in order.
#[verifier::external_body]
pub(crate) fn slice_288(v: &ArrayVec<u8, 288>) -> (r: &[u8])
    ensures
        r@ == bytes_288(*v),
        r@.len() <= 288,
{
    v.as_slice()
}

/// `ArrayVec::clear`: removes every byte.
#[verifier::external_body]
pub(crate) fn clear_288(v: &mut ArrayVec<u8, 288>)
    ensures
        bytes_288(*final(v)) == Seq::<u8>::empty(),
{
    v.clear()
}

/// Index assignment through `ArrayVec`'s `DerefMut` to a slice: replaces the
/// byte at `i`, which must be in bounds.
#[verifier::external_body]
pub(crate) fn set_288(v: &mut ArrayVec<u8, 288>, i: usize, b: u8)
    requires
        i < bytes_288(*old(v)).len(),
    ensures
        bytes_288(*final(v)) == bytes_288(*old(v)).update(i as int, b),
{
    v[i] = b
}

/// The bytes held by a 96-byte buffer (a derived road).
pub uninterp spec fn bytes_96(v: ArrayVec<u8, 96>) -> Seq<u8>;

/// `ArrayVec::new`: an empty buffer.
#[verifier::external_body]
pub(crate) fn new_96() -> (r: ArrayVec<u8, 96>)
    ensures
        bytes_96(r) == Seq::<u8>::empty(),
{
    ArrayVec::new()
}

/// `ArrayVec::push`: appends one byte; a free slot is required.
#[verifier::external_body]
pub(crate) fn push_96(v: &mut ArrayVec<u8, 96>, b: u8)
    requires
        bytes_96(*old(v)).len() < 96,
    ensures
        bytes_96(*final(v)) == bytes_96(*old(v)).push(b),
{
    v.push(b)
}

/// `ArrayVec::as_slice`: the held bytes, in order.
#[verifier::external_body]
pub(crate) fn slice_96(v: &ArrayVec<u8, 96>) -> (r: &[u8])
    ensures
        r@ == bytes_96(*v),
        r@.len() <= 96,
{
    v.as_slice()
}

/// `ArrayVec::clear`: removes every byte.
#[verifier::external_body]
pub(crate) fn clear_96(v: &mut ArrayVec<u8, 96>)
    ensures
        bytes_96(*final(v)) == Seq::<u8>::empty(),
{
    v.clear()
}

/// Index assignment through `ArrayVec`'s `DerefMut` to a slice: replaces the
/// byte at `i`, which must be in bounds.
#[verifier::external_body]
pub(crate) fn set_96(v: &mut ArrayVec<u8, 96>, i: usize, b: u8)
    requires
        i < bytes_96(*old(v)).len(),
    ensures
        bytes_96(*final(v)) == bytes_96(*old(v)).update(i as int, b),
{
    v[i] = b
}

/// The entries held by a buffer of at most 96 `(flags, value)` pairs.
pub uninterp spec fn pairs_96(v: ArrayVec<(u8, u8), 96>) -> Seq<(u8, u8)>;

/// `ArrayVec::new`: an empty buffer.
#[verifier::external_body]
pub(crate) fn new_pairs_96() -> (r: ArrayVec<(u8, u8), 96>)
    ensures
        pairs_96(r) == Seq::<(u8, u8)>::empty(),
{
    ArrayVec::new()
}

/// `ArrayVec::push`: appends one pair; a free slot is required.
#[verifier::external_body]
pub(crate) fn push_pairs_96(v: &mut ArrayVec<(u8, u8), 96>, e: (u8, u8))
    requires
        pairs_96(*old(v)).len() < 96,
    ensures
        pairs_96(*final(v)) == pairs_96(*old(v)).push(e),
{
    v.push(e)
}

/// `ArrayVec::as_slice`: the held pairs, in order.
#[verifier::external_body]
pub(crate) fn slice_pairs_96(v: &ArrayVec<(u8, u8), 96>) -> (r: &[(u8, u8)])
    ensures
        r@ == pairs_96(*v),
{
    v.as_slice()
}

/// The columns held by a bead plate grid of at most 16 columns.
pub uninterp spec fn columns_16(v: ArrayVec<[(u8, u8); 6], 16>) -> Seq<[(u8, u8); 6]>;

/// `ArrayVec::new`: an empty grid.
#[verifier::external_body]
pub(crate) fn new_grid_16() -> (r: ArrayVec<[(u8, u8); 6], 16>)
    ensures
        columns_16(r) == Seq::<[(u8, u8); 6]>::empty(),
{
    ArrayVec::new()
}

/// `ArrayVec::push`: appends one column; a free slot is required.
#[verifier::external_body]
pub(crate) fn push_grid_16(v: &mut ArrayVec<[(u8, u8); 6], 16>, c: [(u8, u8); 6])
    requires
        columns_16(*old(v)).len() < 16,
    ensures
        columns_16(*final(v)) == columns_16(*old(v)).push(c),
{
    v.push(c)
}

/// The columns held by a road grid of at most 40 columns.
pub uninterp spec fn columns_40(v: ArrayVec<[(u8, u8); 6], 40>) -> Seq<[(u8, u8); 6]>;

/// `ArrayVec::new`: an empty grid.
#[verifier::external_body]
pub(crate) fn new_grid_40() -> (r: ArrayVec<[(u8, u8); 6], 40>)
    ensures
        columns_40(r) == Seq::<[(u8, u8); 6]>::empty(),
{
    ArrayVec::new()
}

/// `ArrayVec::push`: appends one column; a free slot is required.
#[verifier::external_body]
pub(crate) fn push_grid_40(v: &mut ArrayVec<[(u8, u8); 6], 40>, c: [(u8, u8); 6])
    requires
        columns_40(*old(v)).len() < 40,
    ensures
        columns_40(*final(v)) == columns_40(*old(v)).push(c),
{
    v.push(c)
}

} // verus!
