//! The text buffer of `append_only_bytes`: a buffer that only grows, and
//! cheap slices of it that can be joined again when they are adjacent.
use vstd::prelude::*;

use append_only_bytes::{AppendOnlyBytes, BytesSlice};

verus! {

#[verifier::external_type_specification]
#[verifier::external_body]
pub struct ExBytesSlice(BytesSlice);

#[verifier::external_type_specification]
#[verifier::external_body]
pub struct ExAppendOnlyBytes(AppendOnlyBytes);

/// The bytes that a slice holds.
pub uninterp spec fn slice_bytes(s: BytesSlice) -> Seq<u8>;

/// Whether `b` starts where `a` ends, in the same buffer: what
/// `BytesSlice::can_merge` tests.
pub uninterp spec fn slices_adjacent(a: BytesSlice, b: BytesSlice) -> bool;

/// The bytes that a buffer holds.
pub uninterp spec fn buffer_bytes(b: AppendOnlyBytes) -> Seq<u8>;

/// `BytesSlice::len`: the number of bytes of the slice.
#[verifier::external_body]
pub(crate) fn bytes_len(s: &BytesSlice) -> (n: usize)
    ensures
        n == slice_bytes(*s).len(),
{
    s.len()
}

/// `BytesSlice::as_bytes`: the bytes of the slice.
#[verifier::external_body]
pub(crate) fn bytes_as_slice(s: &BytesSlice) -> (b: &[u8])
    ensures
        b@ == slice_bytes(*s),
{
    s.as_bytes()
}

/// `BytesSlice::slice_clone`: the bytes `start..end` of the slice, as a slice
/// of the same buffer. It panics outside the slice, which `requires` rules out.
#[verifier::external_body]
pub(crate) fn bytes_slice_clone(s: &BytesSlice, start: usize, end: usize) -> (r: BytesSlice)
    requires
        start <= end <= slice_bytes(*s).len(),
    ensures
        slice_bytes(r) == slice_bytes(*s).subrange(start as int, end as int),
{
    s.slice_clone(start..end)
}

/// `BytesSlice::clone`: the same slice of the same buffer.
#[verifier::external_body]
pub(crate) fn bytes_clone(s: &BytesSlice) -> (r: BytesSlice)
    ensures
        r == *s,
{
    s.clone()
}

/// `BytesSlice::can_merge`.
#[verifier::external_body]
pub(crate) fn bytes_can_merge(a: &BytesSlice, b: &BytesSlice) -> (r: bool)
    ensures
        r == slices_adjacent(*a, *b),
{
    a.can_merge(b)
}

/// `BytesSlice::try_merge`: when `b` starts where `a` ends, `a` grows to
/// cover `b` as well; otherwise nothing changes.
#[verifier::external_body]
pub(crate) fn bytes_try_merge(a: &mut BytesSlice, b: &BytesSlice) -> (ok: bool)
    ensures
        ok == slices_adjacent(*old(a), *b),
        ok ==> slice_bytes(*final(a)) == slice_bytes(*old(a)) + slice_bytes(*b),
        !ok ==> *final(a) == *old(a),
{
    a.try_merge(b).is_ok()
}

/// `AppendOnlyBytes::new`: an empty buffer.
#[verifier::external_body]
pub(crate) fn buffer_new() -> (b: AppendOnlyBytes)
    ensures
        buffer_bytes(b) == Seq::<u8>::empty(),
{
    AppendOnlyBytes::new()
}

/// `AppendOnlyBytes::len`.
#[verifier::external_body]
pub(crate) fn buffer_len(b: &AppendOnlyBytes) -> (n: usize)
    ensures
        n == buffer_bytes(*b).len(),
{
    b.len()
}

/// `AppendOnlyBytes::push_str`: appends the UTF-8 bytes of `s`.
#[verifier::external_body]
pub(crate) fn buffer_push_str(b: &mut AppendOnlyBytes, s: &str)
    ensures
        buffer_bytes(*final(b)) == buffer_bytes(*old(b)) + vstd::utf8::encode_utf8(s@),
{
    b.push_str(s)
}

/// `AppendOnlyBytes::slice`: the bytes from `start` to the current end, as a
/// slice that keeps them. It panics past the end, which `requires` rules out.
#[verifier::external_body]
pub(crate) fn buffer_slice_from(b: &AppendOnlyBytes, start: usize) -> (r: BytesSlice)
    requires
        start <= buffer_bytes(*b).len(),
    ensures
        slice_bytes(r) == buffer_bytes(*b).subrange(start as int, buffer_bytes(*b).len() as int),
{
    b.slice(start..)
}

} // verus!
