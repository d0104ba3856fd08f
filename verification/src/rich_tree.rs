//! The elements of the document: runs of consecutive atoms (bytes) of one
//! peer, inserted together, with their origins, their liveness and the
//! annotation anchors attached to their first and last characters.
use vstd::prelude::*;
use vstd::utf8::*;

use append_only_bytes::BytesSlice;

use crate::ann::ElemAnchorSet;
use crate::bytes::{
    bytes_as_slice, bytes_can_merge, bytes_len, bytes_slice_clone, bytes_try_merge, slice_bytes,
    slices_adjacent,
};
use crate::utf16::{
    get_utf16_len_and_line_breaks, lemma_encode_utf8_len_bound, lemma_text_of_concat,
    lemma_text_of_empty, lemma_utf16_len_concat, line_breaks_of, text_of, utf16_len_of,
    Utf16LenAndLineBreaks,
};
use crate::{Counter, OpID};

verus! {

broadcast use vstd::seq_lib::group_seq_properties;

/// Liveness of an element: a future element is not visible yet, a deleted
/// one has been deleted `deleted_times` times.
#[derive(Clone, Copy, Debug, PartialEq, Eq, Structural)]
pub struct Status {
    pub future: bool,
    pub deleted_times: u16,
}

impl Status {
    /// The status of a visible element.
    pub fn new() -> (s: Self)
        ensures
            !s.future,
            s.deleted_times == 0,
    {
        Status { future: false, deleted_times: 0 }
    }

    pub open spec fn spec_is_dead(&self) -> bool {
        self.future || self.deleted_times > 0
    }

    pub fn is_dead(&self) -> (b: bool)
        ensures
            b == self.spec_is_dead(),
    {
        self.future || self.deleted_times > 0
    }
}

/// Which unit an index into the text counts.
#[derive(Debug, Clone, Copy, PartialEq, Eq, Structural)]
pub enum IndexType {
    Utf8,
    Utf16,
}

/// A run of atoms of one peer: ids `id.counter ..` up to the length of
/// `string`, inserted between `left` and `right` (the atoms it was inserted
/// after and before).
pub struct Elem {
    pub id: OpID,
    pub left: Option<OpID>,
    pub right: Option<OpID>,
    pub string: BytesSlice,
    pub utf16_len: u32,
    /// number of '\n'
    pub line_breaks: u32,
    pub status: Status,
    pub anchor_set: ElemAnchorSet,
}

/// The id `k` atoms after `id`.
pub open spec fn id_at(id: OpID, k: int) -> OpID {
    OpID { client: id.client, counter: (id.counter + k) as u32 }
}

impl Elem {
    /// The bytes of the element.
    pub open spec fn bytes(&self) -> Seq<u8> {
        slice_bytes(self.string)
    }

    /// The bytes of the element that are visible: all of them, or none when
    /// the element is dead.
    pub open spec fn visible(&self) -> Seq<u8> {
        if self.status.spec_is_dead() {
            Seq::empty()
        } else {
            self.bytes()
        }
    }

    /// A non-empty run of valid UTF-8 whose cached measures are right, whose
    /// ids fit a counter, with well-formed anchor sets.
    pub open spec fn wf(&self) -> bool {
        &&& self.bytes().len() > 0
        &&& valid_utf8(self.bytes())
        &&& self.utf16_len == utf16_len_of(text_of(self.bytes()))
        &&& self.line_breaks == line_breaks_of(text_of(self.bytes()))
        &&& self.id.counter + self.bytes().len() <= u32::MAX
        &&& self.anchor_set.wf()
    }

    /// Whether `id` is one of the element's atoms.
    pub open spec fn spec_contains_id(&self, id: OpID) -> bool {
        &&& id.client == self.id.client
        &&& self.id.counter <= id.counter
        &&& id.counter < self.id.counter + self.bytes().len()
    }

    /// A new visible element, with no anchor.
    pub fn new(id: OpID, left: Option<OpID>, right: Option<OpID>, string: BytesSlice) -> (e: Self)
        requires
            slice_bytes(string).len() > 0,
            valid_utf8(slice_bytes(string)),
            id.counter + slice_bytes(string).len() <= u32::MAX,
        ensures
            e.wf(),
            e.id == id,
            e.left == left,
            e.right == right,
            e.string == string,
            !e.status.spec_is_dead(),
            !e.status.future,
            e.status.deleted_times == 0,
            e.anchor_set.start_before@ == Set::<i32>::empty(),
            e.anchor_set.end_before@ == Set::<i32>::empty(),
            e.anchor_set.start_after@ == Set::<i32>::empty(),
            e.anchor_set.end_after@ == Set::<i32>::empty(),
    {
        let m = measure(&string);
        Elem {
            id,
            left,
            right,
            utf16_len: m.utf16,
            string,
            line_breaks: m.line_breaks,
            status: Status::new(),
            anchor_set: ElemAnchorSet::new(),
        }
    }

    /// The id of the last atom.
    pub fn id_last(&self) -> (id: OpID)
        requires
            self.wf(),
        ensures
            id == id_at(self.id, self.bytes().len() - 1),
    {
        OpID { client: self.id.client, counter: self.id.counter + self.atom_len() as Counter - 1 }
    }

    /// Number of visible bytes.
    pub fn content_len(&self) -> (n: usize)
        ensures
            n == self.visible().len(),
    {
        if self.status.is_dead() {
            0
        } else {
            bytes_len(&self.string)
        }
    }

    /// Visible length in the given unit.
    pub fn content_len_with(&self, index_type: IndexType) -> (n: usize)
        requires
            self.wf(),
        ensures
            n == match index_type {
                IndexType::Utf8 => self.visible().len(),
                IndexType::Utf16 => if self.status.spec_is_dead() {
                    0
                } else {
                    utf16_len_of(text_of(self.bytes()))
                },
            },
    {
        if self.status.is_dead() {
            0
        } else {
            match index_type {
                IndexType::Utf8 => bytes_len(&self.string),
                IndexType::Utf16 => self.utf16_len as usize,
            }
        }
    }

    /// The length, in the given unit, of the bytes `start..end` of the
    /// element, whether it is dead or not.
    pub fn slice_len_with(&self, index_type: IndexType, start: usize, end: usize) -> (n: usize)
        requires
            self.wf(),
            start <= end <= self.bytes().len(),
            is_char_boundary(self.bytes(), start as int),
            is_char_boundary(self.bytes(), end as int),
        ensures
            n == match index_type {
                IndexType::Utf8 => (end - start) as nat,
                IndexType::Utf16 => utf16_len_of(text_of(self.bytes().subrange(start as int, end as int))),
            },
    {
        if end == start {
            proof {
                lemma_text_of_empty();
                assert(self.bytes().subrange(start as int, end as int) =~= Seq::<u8>::empty());
            }
            return 0;
        }
        match index_type {
            IndexType::Utf8 => end - start,
            IndexType::Utf16 => {
                let b = bytes_as_slice(&self.string);
                proof {
                    lemma_char_boundary_subrange(self.bytes(), start as int, end as int);
                    lemma_utf16_of_subrange_bound(self.bytes(), start as int, end as int);
                }
                let part = slice_subrange(b, start, end);
                get_utf16_len_and_line_breaks(part).utf16 as usize
            },
        }
    }

    /// The visible length, in the given unit, of the bytes `start..end`:
    /// their length (see [`Elem::slice_len_with`]), or 0 when the element is
    /// dead.
    pub fn visible_slice_len_with(&self, index_type: IndexType, start: usize, end: usize) -> (n: usize)
        requires
            self.wf(),
            start <= end <= self.bytes().len(),
            is_char_boundary(self.bytes(), start as int),
            is_char_boundary(self.bytes(), end as int),
        ensures
            n == if self.status.spec_is_dead() {
                0
            } else {
                match index_type {
                    IndexType::Utf8 => (end - start) as nat,
                    IndexType::Utf16 => utf16_len_of(
                        text_of(self.bytes().subrange(start as int, end as int)),
                    ),
                }
            },
    {
        if self.status.is_dead() {
            0
        } else {
            self.slice_len_with(index_type, start, end)
        }
    }

    /// Number of atoms, dead or not.
    pub fn atom_len(&self) -> (n: usize)
        ensures
            n == self.bytes().len(),
    {
        bytes_len(&self.string)
    }

    pub fn is_dead(&self) -> (b: bool)
        ensures
            b == self.status.spec_is_dead(),
    {
        self.status.is_dead()
    }

    /// Splits the element at `offset`: `self` keeps the bytes before it and
    /// the anchors before its start, the returned element takes the rest,
    /// starting at the id `offset` atoms later, with the atom before as its
    /// left origin.
    pub fn split(&mut self, offset: usize) -> (right: Elem)
        requires
            old(self).wf(),
            0 < offset < old(self).bytes().len(),
            is_char_boundary(old(self).bytes(), offset as int),
        ensures
            final(self).wf(),
            right.wf(),
            final(self).bytes() == old(self).bytes().take(offset as int),
            right.bytes() == old(self).bytes().skip(offset as int),
            final(self).id == old(self).id,
            final(self).left == old(self).left,
            final(self).right == old(self).right,
            final(self).status == old(self).status,
            right.id == id_at(old(self).id, offset as int),
            right.left == Some(id_at(old(self).id, offset - 1)),
            right.right == old(self).right,
            right.status == old(self).status,
            final(self).anchor_set.start_before@ == old(self).anchor_set.start_before@,
            final(self).anchor_set.end_before@ == old(self).anchor_set.end_before@,
            final(self).anchor_set.start_after@ == Set::<i32>::empty(),
            final(self).anchor_set.end_after@ == Set::<i32>::empty(),
            right.anchor_set.start_before@ == Set::<i32>::empty(),
            right.anchor_set.end_before@ == Set::<i32>::empty(),
            right.anchor_set.start_after@ == old(self).anchor_set.start_after@,
            right.anchor_set.end_after@ == old(self).anchor_set.end_after@,
    {
        let len = bytes_len(&self.string);
        let ghost b = self.bytes();
        proof {
            lemma_char_boundary_split(b, offset as int);
        }
        let s = bytes_slice_clone(&self.string, offset, len);
        let m = measure(&s);
        let right = Elem {
            anchor_set: self.anchor_set.split(),
            id: self.id.inc(offset as Counter),
            left: Some(self.id.inc(offset as Counter - 1)),
            right: self.right,
            string: s,
            utf16_len: m.utf16,
            status: self.status,
            line_breaks: m.line_breaks,
        };
        proof {
            assert(b.subrange(offset as int, len as int) =~= b.skip(offset as int));
            assert(b.subrange(0, offset as int) =~= b.take(offset as int));
            assert(b =~= b.take(offset as int) + b.skip(offset as int));
            lemma_text_of_concat(b.take(offset as int), b.skip(offset as int));
            lemma_utf16_len_concat(text_of(b.take(offset as int)), text_of(b.skip(offset as int)));
        }
        self.utf16_len = self.utf16_len - m.utf16;
        self.line_breaks = self.line_breaks - m.line_breaks;
        self.string = bytes_slice_clone(&self.string, 0, offset);
        right
    }

    /// Marks a visible element deleted; answers whether it was visible.
    pub fn local_delete(&mut self) -> (deleted: bool)
        ensures
            deleted == !old(self).status.spec_is_dead(),
            final(self).status.spec_is_dead(),
            deleted ==> final(self).status == (Status {
                deleted_times: 1,
                ..old(self).status
            }),
            !deleted ==> final(self).status == old(self).status,
            final(self).id == old(self).id,
            final(self).left == old(self).left,
            final(self).right == old(self).right,
            final(self).string == old(self).string,
            final(self).utf16_len == old(self).utf16_len,
            final(self).line_breaks == old(self).line_breaks,
            final(self).anchor_set == old(self).anchor_set,
    {
        if !self.is_dead() {
            self.status.deleted_times = self.status.deleted_times + 1;
            true
        } else {
            false
        }
    }

    /// Counts one more deletion of the element (by a remote operation). The
    /// count stops at `u16::MAX`, which keeps the element deleted.
    pub fn apply_remote_delete(&mut self)
        ensures
            final(self).status.spec_is_dead(),
            final(self).status.future == old(self).status.future,
            final(self).status.deleted_times == if old(self).status.deleted_times < u16::MAX {
                old(self).status.deleted_times + 1
            } else {
                u16::MAX as int
            },
            final(self).id == old(self).id,
            final(self).left == old(self).left,
            final(self).right == old(self).right,
            final(self).string == old(self).string,
            final(self).utf16_len == old(self).utf16_len,
            final(self).line_breaks == old(self).line_breaks,
            final(self).anchor_set == old(self).anchor_set,
    {
        self.status.deleted_times = self.status.deleted_times.saturating_add(1);
    }

    /// Appends a slice of the same buffer that starts where the element
    /// ends.
    pub fn merge_slice(&mut self, s: &BytesSlice)
        requires
            old(self).wf(),
            slices_adjacent(old(self).string, *s),
            valid_utf8(slice_bytes(*s)),
            old(self).id.counter + old(self).bytes().len() + slice_bytes(*s).len() <= u32::MAX,
            utf16_len_of(text_of(old(self).bytes() + slice_bytes(*s))) <= u32::MAX,
        ensures
            final(self).wf(),
            final(self).bytes() == old(self).bytes() + slice_bytes(*s),
            final(self).id == old(self).id,
            final(self).left == old(self).left,
            final(self).right == old(self).right,
            final(self).status == old(self).status,
            final(self).anchor_set == old(self).anchor_set,
    {
        let ghost b0 = self.bytes();
        let ok = bytes_try_merge(&mut self.string, s);
        proof {
            lemma_text_of_concat(b0, slice_bytes(*s));
            lemma_utf16_len_concat(text_of(b0), text_of(slice_bytes(*s)));
            lemma_encode_utf8_len_bound(text_of(b0 + slice_bytes(*s)));
            encode_utf8_decode_utf8(text_of(b0 + slice_bytes(*s)));
            decode_utf8_encode_utf8(b0 + slice_bytes(*s));
        }
        let m = measure(s);
        self.utf16_len = self.utf16_len + m.utf16;
        self.line_breaks = self.line_breaks + m.line_breaks;
    }

    /// Whether `id` is one of the element's atoms.
    pub fn contains_id(&self, id: OpID) -> (b: bool)
        requires
            self.wf(),
        ensures
            b == self.spec_contains_id(id),
    {
        id.client == self.id.client && self.id.counter <= id.counter && (self.id.counter as u64
            + self.atom_len() as u64) > id.counter as u64
    }

    /// Whether the run of `len` ids from `id` meets the element's atoms.
    pub fn overlap(&self, id: OpID, len: usize) -> (b: bool)
        requires
            self.wf(),
            id.counter + len <= u32::MAX,
        ensures
            b == (id.client == self.id.client && self.id.counter < id.counter + len
                && id.counter < self.id.counter + self.bytes().len()),
    {
        id.client == self.id.client && (self.id.counter as u64) < (id.counter as u64 + len as u64)
            && (self.id.counter as u64 + self.atom_len() as u64) > id.counter as u64
    }

    /// Whether `rhs` continues `self` and both can be kept as one element.
    pub open spec fn spec_can_merge(&self, rhs: &Self) -> bool {
        &&& self.id.client == rhs.id.client
        &&& self.id.counter + self.bytes().len() == rhs.id.counter
        &&& rhs.left == Some(id_at(self.id, self.bytes().len() - 1))
        &&& self.right == rhs.right
        &&& self.status == rhs.status
        &&& slices_adjacent(self.string, rhs.string)
        &&& self.anchor_set.start_after@ == Set::<i32>::empty()
        &&& self.anchor_set.end_after@ == Set::<i32>::empty()
        &&& rhs.anchor_set.start_before@ == Set::<i32>::empty()
        &&& rhs.anchor_set.end_before@ == Set::<i32>::empty()
    }

    pub fn can_merge(&self, rhs: &Self) -> (b: bool)
        requires
            self.wf(),
            rhs.wf(),
        ensures
            b == self.spec_can_merge(rhs),
    {
        self.id.client == rhs.id.client && self.id.counter as u64 + self.atom_len() as u64
            == rhs.id.counter as u64 && match rhs.left {
            Some(l) => l == self.id_last(),
            None => false,
        } && self.right == rhs.right && self.status == rhs.status && bytes_can_merge(
            &self.string,
            &rhs.string,
        ) && self.anchor_set.can_merge(&rhs.anchor_set)
    }

    /// Appends `rhs`, which continues `self`.
    pub fn merge_right(&mut self, rhs: &Self)
        requires
            old(self).wf(),
            rhs.wf(),
            old(self).spec_can_merge(rhs),
        ensures
            final(self).wf(),
            final(self).bytes() == old(self).bytes() + rhs.bytes(),
            final(self).id == old(self).id,
            final(self).left == old(self).left,
            final(self).right == old(self).right,
            final(self).status == old(self).status,
            final(self).anchor_set.start_before@ == old(self).anchor_set.start_before@,
            final(self).anchor_set.end_before@ == old(self).anchor_set.end_before@,
            final(self).anchor_set.start_after@ == rhs.anchor_set.start_after@,
            final(self).anchor_set.end_after@ == rhs.anchor_set.end_after@,
    {
        let ghost b0 = self.bytes();
        bytes_try_merge(&mut self.string, &rhs.string);
        proof {
            lemma_text_of_concat(b0, rhs.bytes());
            lemma_utf16_len_concat(text_of(b0), text_of(rhs.bytes()));
            lemma_encode_utf8_len_bound(text_of(b0 + rhs.bytes()));
            decode_utf8_encode_utf8(b0 + rhs.bytes());
        }
        self.utf16_len = self.utf16_len + rhs.utf16_len;
        self.line_breaks = self.line_breaks + rhs.line_breaks;
        self.anchor_set.merge_right(&rhs.anchor_set);
    }

    pub fn has_after_anchor(&self) -> (b: bool)
        ensures
            b == (self.anchor_set.start_after@ != Set::<i32>::empty()
                || self.anchor_set.end_after@ != Set::<i32>::empty()),
    {
        self.anchor_set.has_after_anchor()
    }

    pub fn has_before_anchor(&self) -> (b: bool)
        ensures
            b == (self.anchor_set.start_before@ != Set::<i32>::empty()
                || self.anchor_set.end_before@ != Set::<i32>::empty()),
    {
        self.anchor_set.has_before_anchor()
    }
}

/// UTF-16 length and line breaks of a slice of valid UTF-8.
fn measure(s: &BytesSlice) -> (m: Utf16LenAndLineBreaks)
    requires
        valid_utf8(slice_bytes(*s)),
        slice_bytes(*s).len() <= u32::MAX,
    ensures
        m.utf16 == utf16_len_of(text_of(slice_bytes(*s))),
        m.line_breaks == line_breaks_of(text_of(slice_bytes(*s))),
{
    let b = bytes_as_slice(s);
    proof {
        lemma_encode_utf8_len_bound(text_of(b@));
        decode_utf8_encode_utf8(b@);
    }
    get_utf16_len_and_line_breaks(b)
}

/// The bytes `start..end` of a slice.
pub(crate) fn slice_subrange_pub(b: &[u8], start: usize, end: usize) -> (r: &[u8])
    requires
        start <= end <= b@.len(),
    ensures
        r@ == b@.subrange(start as int, end as int),
{
    slice_subrange(b, start, end)
}

/// The bytes `start..end` of a slice.
fn slice_subrange(b: &[u8], start: usize, end: usize) -> (r: &[u8])
    requires
        start <= end <= b@.len(),
    ensures
        r@ == b@.subrange(start as int, end as int),
{
    let (_, tail) = b.split_at(start);
    let (mid, _) = tail.split_at(end - start);
    proof {
        assert(mid@ =~= b@.subrange(start as int, end as int));
    }
    mid
}

/// Splitting valid UTF-8 at a character boundary gives two valid halves.
pub proof fn lemma_char_boundary_split(b: Seq<u8>, k: int)
    requires
        valid_utf8(b),
        0 <= k <= b.len(),
        is_char_boundary(b, k),
    ensures
        valid_utf8(b.take(k)),
        valid_utf8(b.skip(k)),
{
    valid_utf8_split(b, k);
    assert(b.subrange(0, k) =~= b.take(k));
    assert(b.subrange(k, b.len() as int) =~= b.skip(k));
}

/// A range between two character boundaries of valid UTF-8 is valid UTF-8.
pub proof fn lemma_char_boundary_subrange(b: Seq<u8>, i: int, j: int)
    requires
        valid_utf8(b),
        0 <= i <= j <= b.len(),
        is_char_boundary(b, i),
        is_char_boundary(b, j),
    ensures
        valid_utf8(b.subrange(i, j)),
{
    lemma_char_boundary_split(b, j);
    let head = b.take(j);
    lemma_char_boundary_prefix(b, j, i);
    lemma_char_boundary_split(head, i);
    assert(head.skip(i) =~= b.subrange(i, j));
}

/// A character boundary before `j` stays one in the first `j` bytes, when
/// `j` is a boundary too.
pub proof fn lemma_char_boundary_prefix(b: Seq<u8>, j: int, i: int)
    requires
        valid_utf8(b),
        0 <= i <= j <= b.len(),
        is_char_boundary(b, i),
        is_char_boundary(b, j),
    ensures
        is_char_boundary(b.take(j), i),
{
    lemma_char_boundary_split(b, j);
    let head = b.take(j);
    if i == j {
        is_char_boundary_start_end_of_seq(head);
    } else if i == 0 {
        is_char_boundary_start_end_of_seq(head);
    } else {
        is_char_boundary_iff_not_is_continuation_byte(b, i);
        is_char_boundary_iff_not_is_continuation_byte(head, i);
        assert(head[i] == b[i]);
    }
}

/// The UTF-16 length of a range of valid UTF-8 fits in a `u32` when the
/// range does.
pub proof fn lemma_utf16_of_subrange_bound(b: Seq<u8>, i: int, j: int)
    requires
        valid_utf8(b.subrange(i, j)),
        0 <= i <= j <= b.len(),
        b.len() <= u32::MAX,
    ensures
        utf16_len_of(text_of(b.subrange(i, j))) <= u32::MAX,
{
    lemma_encode_utf8_len_bound(text_of(b.subrange(i, j)));
    decode_utf8_encode_utf8(b.subrange(i, j));
}

} // verus!
