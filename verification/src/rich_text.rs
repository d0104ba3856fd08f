//! The rich text document: a sequence of elements (runs of atoms, dead or
//! visible, with annotation anchors), the store of all operations, and the
//! registry of annotations.
//!
//! The visible text is the concatenation of the visible elements' bytes
//! ([`text_of_elems`]). Local edits change it exactly as a string edit would;
//! they also record the operation that lets other peers replay them.
use vstd::prelude::*;
use vstd::utf8::*;

use append_only_bytes::AppendOnlyBytes;

use crate::ann::{is_active, AnnIdx, AnnManager, ElemAnchorSet, Span, StyleCalculator};
use crate::{json_clone, json_eq, json_values_equal, str_eq, Behavior};
use vstd::string::StringExecFns;
use crate::bytes::{
    buffer_len, buffer_new, buffer_push_str, buffer_slice_from, bytes_as_slice, bytes_can_merge,
    bytes_clone, slice_bytes, slices_adjacent,
};
use crate::op::{
    is_run, spec_positive, lemma_export_is_run, lemma_slice_wf, log_end, log_wf, op_wf, op_wf_exec, recorded, recorded_seq, run_end,
    CanApply, Op, OpContent, OpStore, TextInsertOp,
};
use crate::vv::VersionVector;
use crate::delta::{attrs_put, find_key};
use crate::kept::{lemma_kept_extend, lemma_kept_insert_elem, lemma_kept_same, lemma_kept_split, lemma_kept_then, styles_kept};
use crate::placed::{char_placed, lemma_recut_placed, recut};
use crate::anchors::{
    anchor_in, anchor_none, anchor_on, elems_prefix, lemma_anchors_replace, lemma_anchors_split, same_active_but,
};
use crate::fx::{fx_map_get, fx_map_keys};
use fxhash::FxHashMap;
use crate::rich_tree::{id_at, Elem, IndexType};
use crate::utf16::{
    bytes_to_str, get_utf16_len_and_line_breaks, line_start_of, line_start_to_utf8, lemma_encode_utf8_len_bound,
    lemma_text_of_concat, lemma_text_of_empty, lemma_utf16_len_concat, line_breaks_of, text_of,
    utf16_len_of, utf16_to_utf8, utf8_offset_of_utf16,
};
use crate::{Anchor, AnchorRange, AnchorType, Annotation, ClientID, OpID, Style};
use crate::fx::arc_ann_clone;
use std::sync::Arc;

verus! {

broadcast use vstd::seq_lib::group_seq_properties;

/// The visible bytes of a sequence of elements, in order.
pub open spec fn text_of_elems(s: Seq<Elem>) -> Seq<u8>
    decreases s.len(),
{
    if s.len() == 0 {
        Seq::empty()
    } else {
        text_of_elems(s.drop_last()) + s.last().visible()
    }
}

/// Every annotation index in an anchor set is below `n`.
pub open spec fn anchors_below(a: ElemAnchorSet, n: int) -> bool {
    &&& forall|x: i32| #[trigger] a.start_before@.contains(x) ==> x < n
    &&& forall|x: i32| #[trigger] a.end_before@.contains(x) ==> x < n
    &&& forall|x: i32| #[trigger] a.start_after@.contains(x) ==> x < n
    &&& forall|x: i32| #[trigger] a.end_after@.contains(x) ==> x < n
}

/// An element of a document: well-formed, with ids whose deletions fit the
/// `i32` arithmetic of deletion operations, and anchors of registered
/// annotations.
pub open spec fn elem_ok(e: Elem, n_ann: int) -> bool {
    &&& e.wf()
    &&& e.id.counter + e.bytes().len() <= i32::MAX
    &&& anchors_below(e.anchor_set, n_ann)
}

/// All elements of `s` are [`elem_ok`].
pub open spec fn elems_ok(s: Seq<Elem>, n_ann: int) -> bool {
    forall|i: int| 0 <= i < s.len() ==> elem_ok(#[trigger] s[i], n_ann)
}

/// Splitting a sequence of elements splits its text.
pub proof fn lemma_text_concat(a: Seq<Elem>, b: Seq<Elem>)
    ensures
        text_of_elems(a + b) == text_of_elems(a) + text_of_elems(b),
    decreases b.len(),
{
    if b.len() == 0 {
        assert(a + b =~= a);
        assert(text_of_elems(a) + text_of_elems(b) =~= text_of_elems(a));
    } else {
        lemma_text_concat(a, b.drop_last());
        assert((a + b).drop_last() =~= a + b.drop_last());
        assert(text_of_elems(a + b) =~= text_of_elems(a) + text_of_elems(b));
    }
}

/// The text of one element.
pub proof fn lemma_text_single(e: Elem)
    ensures
        text_of_elems(seq![e]) == e.visible(),
{
    let s = seq![e];
    assert(s.len() == 1);
    assert(s.last() == e);
    assert(s.drop_last() =~= Seq::<Elem>::empty());
    assert(text_of_elems(Seq::<Elem>::empty()) == Seq::<u8>::empty());
    assert(text_of_elems(s) == text_of_elems(s.drop_last()) + s.last().visible());
    assert(text_of_elems(s) =~= e.visible());
}

/// The text around element `i`: before it, its own, after it.
pub proof fn lemma_text_split_at(s: Seq<Elem>, i: int)
    requires
        0 <= i < s.len(),
    ensures
        text_of_elems(s) == text_of_elems(s.take(i)) + s[i].visible() + text_of_elems(s.skip(i + 1)),
        text_of_elems(s.take(i + 1)) == text_of_elems(s.take(i)) + s[i].visible(),
{
    assert(s =~= s.take(i) + seq![s[i]] + s.skip(i + 1));
    assert(s.take(i + 1) =~= s.take(i) + seq![s[i]]);
    lemma_text_concat(s.take(i) + seq![s[i]], s.skip(i + 1));
    lemma_text_concat(s.take(i), seq![s[i]]);
    lemma_text_single(s[i]);
}

/// The text of well-formed elements is valid UTF-8.
pub proof fn lemma_text_valid(s: Seq<Elem>)
    requires
        forall|i: int| 0 <= i < s.len() ==> (#[trigger] s[i]).wf(),
    ensures
        valid_utf8(text_of_elems(s)),
    decreases s.len(),
{
    if s.len() == 0 {
        lemma_text_of_empty();
    } else {
        lemma_text_valid(s.drop_last());
        lemma_text_of_empty();
        lemma_text_of_concat(text_of_elems(s.drop_last()), s.last().visible());
    }
}

/// A character boundary of the whole text that falls strictly inside an
/// element is a character boundary of that element.
pub proof fn lemma_boundary_inside(a: Seq<u8>, b: Seq<u8>, c: Seq<u8>, k: int)
    requires
        valid_utf8(a + b + c),
        valid_utf8(b),
        0 < k < b.len(),
        is_char_boundary(a + b + c, a.len() + k),
    ensures
        is_char_boundary(b, k),
{
    let t = a + b + c;
    is_char_boundary_iff_not_is_continuation_byte(t, a.len() + k);
    is_char_boundary_iff_not_is_continuation_byte(b, k);
    assert(t[a.len() + k] == b[k]);
}

/// The text length before element `i`, plus `off` when that element is
/// visible: the text index of a cursor at byte `off` of element `i`.
pub open spec fn cursor_index(s: Seq<Elem>, i: int, off: int) -> int {
    text_of_elems(s.take(i)).len() + if s[i].status.spec_is_dead() {
        0
    } else {
        off
    }
}

/// `left` and `right` are origins of text inserted at text byte `index` of
/// the elements `s`: at the start, no left origin and the first element as
/// right origin; elsewhere, for a place after byte `off` of element `i` where
/// the text before is `index` bytes long, the atom just before that place
/// and the one just after it (none at the end).
pub open spec fn insert_origins(s: Seq<Elem>, index: int, left: Option<OpID>, right: Option<OpID>) -> bool {
    if index == 0 {
        &&& left is None
        &&& right == if s.len() > 0 {
            Some(s[0].id)
        } else {
            None::<OpID>
        }
    } else {
        exists|i: int, off: int|
            0 <= i < s.len() && 0 < off <= s[i].bytes().len() && #[trigger] cursor_index(s, i, off) == index
                && left == Some(id_at(s[i].id, off - 1)) && right == if off < s[i].bytes().len() {
                Some(id_at(s[i].id, off))
            } else if i + 1 < s.len() {
                Some(s[i + 1].id)
            } else {
                None::<OpID>
            }
    }
}

/// The operation that a local insertion of `bytes` at text byte `index` of
/// `before` records: the next id and lamport of the document, the bytes, and
/// origins as [`insert_origins`] says.
pub open spec fn local_insert_op(before: RichText, index: int, bytes: Seq<u8>, op: Op) -> bool {
    &&& op.id == (OpID { client: before.client(), counter: before.next_counter() as u32 })
    &&& op.lamport == before.next_lamport()
    &&& op.content matches OpContent::Text(t) && slice_bytes(t.text) == bytes && insert_origins(
        before.elems(),
        index,
        t.left,
        t.right,
    )
}

/// The document.
pub struct RichText {
    bytes: AppendOnlyBytes,
    content: Vec<Elem>,
    store: OpStore,
    pending_ops: Vec<Op>,
    ann: AnnManager,
    /// the styles that start at the very beginning (start anchor `None`)
    init_styles: StyleCalculator,
    event_index_type: IndexType,
}

impl RichText {
    /// The visible text, as UTF-8 bytes.
    pub closed spec fn text(&self) -> Seq<u8> {
        text_of_elems(self.content@)
    }

    /// The elements, in document order.
    pub closed spec fn elems(&self) -> Seq<Elem> {
        self.content@
    }

    /// The counter of the next local atom.
    pub closed spec fn next_counter(&self) -> int {
        log_end(self.store.ops_of(self.store.client))
    }

    /// The lamport timestamp of the next local operation.
    pub closed spec fn next_lamport(&self) -> int {
        self.store.next_lamport as int
    }

    /// The peer that this document edits as.
    pub closed spec fn client(&self) -> ClientID {
        self.store.client
    }

    /// The unit of the indices in events.
    pub closed spec fn event_unit(&self) -> IndexType {
        self.event_index_type
    }

    /// The stored history of peer `c`.
    pub closed spec fn history(&self, c: ClientID) -> Seq<Op> {
        self.store.ops_of(c)
    }

    pub closed spec fn wf(&self) -> bool {
        &&& elems_ok(self.content@, self.ann.idx_to_ann.len() as int)
        &&& text_of_elems(self.content@).len() < u32::MAX
        &&& self.store.wf()
        &&& self.ann.wf()
        &&& self.init_styles.wf()
        &&& forall|x: i32| #[trigger]
            self.init_styles.inner@.contains(x) ==> x < self.ann.idx_to_ann.len()
    }

    /// A room of `n` more atoms and lamports for local operations.
    pub open spec fn has_room(&self, n: int) -> bool {
        &&& self.next_counter() + n <= i32::MAX
        &&& self.next_lamport() + n <= u32::MAX
    }

    /// An empty document edited as peer `client_id`.
    pub fn new(client_id: u64) -> (r: Self)
        ensures
            r.wf(),
            r.text() == Seq::<u8>::empty(),
            r.client() == client_id,
            r.next_counter() == 0,
            r.next_lamport() == 0,
            r.event_unit() == IndexType::Utf8,
    {
        RichText {
            bytes: buffer_new(),
            content: Vec::new(),
            store: OpStore::new(client_id),
            pending_ops: Vec::new(),
            ann: AnnManager::new(),
            init_styles: StyleCalculator::new(),
            event_index_type: IndexType::Utf8,
        }
    }

    /// The peer that this document edits as.
    pub fn id(&self) -> (c: ClientID)
        ensures
            c == self.client(),
    {
        self.store.client
    }

    /// Sets the unit of the indices in events.
    pub fn set_event_index_type(&mut self, index_type: IndexType)
        ensures
            final(self).text() == old(self).text(),
            final(self).elems() == old(self).elems(),
            final(self).wf() == old(self).wf(),
            final(self).next_counter() == old(self).next_counter(),
            final(self).next_lamport() == old(self).next_lamport(),
            final(self).client() == old(self).client(),
            final(self).event_unit() == index_type,
    {
        self.event_index_type = index_type;
    }

    /// The elements of the document, in order (dead ones included).
    pub fn elements(&self) -> (r: &Vec<Elem>)
        ensures
            r@ == self.elems(),
    {
        &self.content
    }

    /// The counter and lamport timestamp of the next local operation.
    pub fn next_stamps(&self) -> (r: (u32, u32))
        requires
            self.wf(),
        ensures
            r.0 == self.next_counter(),
            r.1 == self.next_lamport(),
    {
        (self.store.next_id().counter, self.store.next_lamport())
    }

    /// Whether byte `i` is a character boundary of the text.
    pub fn is_text_boundary(&self, i: usize) -> (b: bool)
        requires
            self.wf(),
        ensures
            b == (i <= self.text().len() && is_char_boundary(self.text(), i as int)),
    {
        let v = self.text_bytes();
        if i > v.len() {
            return false;
        }
        proof {
            self.lemma_wf_text_valid();
        }
        let st = bytes_to_str(v.as_slice());
        st.is_char_boundary(i)
    }

    /// The number of annotation slots (see [`RichText::annotations`]).
    pub fn annotation_count(&self) -> (n: usize)
        ensures
            n == self.annotations().len(),
    {
        self.ann.idx_to_ann.len()
    }

    /// The stored operations of all peers.
    pub fn store(&self) -> (r: &OpStore)
        ensures
            forall|c: ClientID| #[trigger] r.ops_of(c) == self.history(c),
    {
        &self.store
    }

    /// The unit of the indices in events.
    pub fn event_index_type(&self) -> (t: IndexType)
        ensures
            t == self.event_unit(),
    {
        self.event_index_type
    }

    /// Number of bytes of the visible text.
    pub fn len(&self) -> (n: usize)
        requires
            self.wf(),
        ensures
            n == self.text().len(),
    {
        let mut i: usize = 0;
        let mut n: usize = 0;
        while i < self.content.len()
            invariant
                self.wf(),
                0 <= i <= self.content@.len(),
                n == text_of_elems(self.content@.take(i as int)).len(),
            decreases self.content@.len() - i,
        {
            proof {
                lemma_text_split_at(self.content@, i as int);
                lemma_text_concat(self.content@.take(i as int + 1), self.content@.skip(i as int + 1));
                assert(self.content@ =~= self.content@.take(i as int + 1) + self.content@.skip(
                    i as int + 1,
                ));
            }
            n = n + self.content[i].content_len();
            i = i + 1;
        }
        proof {
            assert(self.content@.take(i as int) =~= self.content@);
        }
        n
    }

    pub fn is_empty(&self) -> (b: bool)
        requires
            self.wf(),
        ensures
            b == (self.text().len() == 0),
    {
        self.len() == 0
    }

    /// The visible element holding text byte `target`, and the byte's offset
    /// in it.
    fn locate(&self, target: usize) -> (r: (usize, usize))
        requires
            self.wf(),
            target < self.text().len(),
        ensures
            r.0 < self.content@.len(),
            !self.content@[r.0 as int].status.spec_is_dead(),
            r.1 < self.content@[r.0 as int].bytes().len(),
            text_of_elems(self.content@.take(r.0 as int)).len() + r.1 == target,
    {
        let ghost s = self.content@;
        let mut i: usize = 0;
        let mut acc: usize = 0;
        loop
            invariant
                self.wf(),
                s == self.content@,
                target < self.text().len(),
                0 <= i <= s.len(),
                acc == text_of_elems(s.take(i as int)).len(),
                acc <= target,
            decreases s.len() - i,
        {
            if i == self.content.len() {
                proof {
                    assert(s.take(i as int) =~= s);
                }
                assert(false);
            }
            proof {
                lemma_text_split_at(s, i as int);
                lemma_text_concat(s.take(i as int + 1), s.skip(i as int + 1));
                assert(s =~= s.take(i as int + 1) + s.skip(i as int + 1));
            }
            let l = self.content[i].content_len();
            if acc + l > target {
                return (i, target - acc);
            }
            acc = acc + l;
            i = i + 1;
        }
    }

    /// Where a local insertion at text index `index > 0` goes: element `i`,
    /// after its first `off` bytes. Among the dead elements at that point it
    /// picks the place that makes the new text take the styles a user
    /// expects: before dead elements where an annotation starts, after those
    /// where one ends.
#[verifier::spinoff_prover]
#[verifier::rlimit(40)]
    fn find_ideal_right_origin(&self, index: usize) -> (r: (usize, usize))
        requires
            self.wf(),
            0 < index <= self.text().len(),
            is_char_boundary(self.text(), index as int),
        ensures
            r.0 < self.content@.len(),
            0 < r.1 <= self.content@[r.0 as int].bytes().len(),
            cursor_index(self.content@, r.0 as int, r.1 as int) == index,
            r.1 < self.content@[r.0 as int].bytes().len() ==> {
                &&& !self.content@[r.0 as int].status.spec_is_dead()
                &&& is_char_boundary(self.content@[r.0 as int].bytes(), r.1 as int)
            },
    {
        let ghost s = self.content@;
        let n = self.content.len();
        let (i0, o) = self.locate(index - 1);
        proof {
            lemma_text_split_at(s, i0 as int);
            let a = text_of_elems(s.take(i0 as int));
            let b = s[i0 as int].bytes();
            let c = text_of_elems(s.skip(i0 as int + 1));
            lemma_text_valid(s);
            if o + 1 < b.len() {
                lemma_boundary_inside(a, b, c, o + 1);
            }
        }
        let mut i = i0;
        let mut off = o + 1;
        if off >= self.content[i].atom_len() && i + 1 < n {
            proof {
                lemma_text_split_at(s, i as int + 1);
                lemma_text_split_at(s, i as int);
            }
            i = i + 1;
            off = 0;
        }
        // scan forward over dead elements where no annotation starts
        loop
            invariant
                self.wf(),
                s == self.content@,
                n == s.len(),
                i < n,
                off <= s[i as int].bytes().len(),
                cursor_index(s, i as int, off as int) == index,
                off < s[i as int].bytes().len() ==> (off == 0 || (!s[i as int].status.spec_is_dead()
                    && is_char_boundary(s[i as int].bytes(), off as int))),
                off == 0 || i == i0,
                i >= i0,
            decreases n - i,
        {
            if !self.content[i].is_dead() || self.content[i].anchor_set.has_start_after() {
                break;
            }
            if i + 1 >= n {
                break;
            }
            if self.content[i + 1].anchor_set.has_start_before() {
                break;
            }
            proof {
                lemma_text_split_at(s, i as int + 1);
                lemma_text_split_at(s, i as int);
            }
            i = i + 1;
            off = 0;
        }
        // scan backward, after dead elements where an annotation ends
        if off == 0 && i > 0 {
            proof {
                lemma_text_split_at(s, i as int - 1);
                assert(s.take(i as int - 1 + 1) =~= s.take(i as int));
            }
            i = i - 1;
            off = self.content[i].atom_len();
        }
        while i > 0 && self.content[i].is_dead() && !self.content[i].has_after_anchor()
            invariant
                self.wf(),
                s == self.content@,
                n == s.len(),
                i < n,
                off <= s[i as int].bytes().len(),
                cursor_index(s, i as int, off as int) == index,
                off < s[i as int].bytes().len() ==> (off == 0 || (!s[i as int].status.spec_is_dead()
                    && is_char_boundary(s[i as int].bytes(), off as int))),
                off == 0 ==> i == 0,
            decreases i,
        {
            proof {
                lemma_text_split_at(s, i as int - 1);
                assert(s.take(i as int - 1 + 1) =~= s.take(i as int));
            }
            i = i - 1;
            off = self.content[i].atom_len();
        }
        proof {
            if off == 0 {
                assert(s.take(0) =~= Seq::<Elem>::empty());
            }
        }
        (i, off)
    }
}


/// UTF-16 length of valid UTF-8 is at most its byte length.
pub proof fn lemma_utf16_le_bytes(b: Seq<u8>)
    requires
        valid_utf8(b),
    ensures
        crate::utf16::utf16_len_of(text_of(b)) <= b.len(),
        crate::utf16::line_breaks_of(text_of(b)) <= b.len(),
{
    lemma_encode_utf8_len_bound(text_of(b));
    decode_utf8_encode_utf8(b);
}

/// Whether a new local slice can extend element `elem` in place: same peer,
/// ids that continue, same right origin, visible, adjacent bytes, and no
/// anchor after the element's end.
fn can_merge_new_slice(
    elem: &Elem,
    id: OpID,
    right: Option<OpID>,
    slice: &append_only_bytes::BytesSlice,
) -> (b: bool)
    requires
        elem.wf(),
    ensures
        b == (elem.id.client == id.client && elem.id.counter + elem.bytes().len() == id.counter
            && elem.right == right && !elem.status.spec_is_dead() && slices_adjacent(
            elem.string,
            *slice,
        ) && elem.anchor_set.start_after@ == Set::<i32>::empty()
            && elem.anchor_set.end_after@ == Set::<i32>::empty()),
{
    elem.id.client == id.client && elem.id.counter as u64 + elem.atom_len() as u64
        == id.counter as u64 && elem.right == right && !elem.is_dead() && bytes_can_merge(
        &elem.string,
        slice,
    ) && !elem.has_after_anchor()
}

/// Replacing element `i` by the elements `mid` replaces its visible bytes
/// by the text of `mid`.
pub proof fn lemma_replace_one(s: Seq<Elem>, i: int, mid: Seq<Elem>)
    requires
        0 <= i < s.len(),
    ensures
        text_of_elems(s.take(i) + mid + s.skip(i + 1)) == text_of_elems(s.take(i)) + text_of_elems(
            mid,
        ) + text_of_elems(s.skip(i + 1)),
        text_of_elems(s) == text_of_elems(s.take(i)) + s[i].visible() + text_of_elems(s.skip(i + 1)),
{
    lemma_text_concat(s.take(i) + mid, s.skip(i + 1));
    lemma_text_concat(s.take(i), mid);
    lemma_text_split_at(s, i);
}

/// The text of two and of three elements.
pub proof fn lemma_text_two_three(a: Elem, b: Elem, c: Elem)
    ensures
        text_of_elems(seq![a, b]) == a.visible() + b.visible(),
        text_of_elems(seq![a, b, c]) == a.visible() + b.visible() + c.visible(),
{
    assert(seq![a, b] =~= seq![a] + seq![b]);
    assert(seq![a, b, c] =~= seq![a] + seq![b] + seq![c]);
    lemma_text_concat(seq![a], seq![b]);
    lemma_text_concat(seq![a] + seq![b], seq![c]);
    lemma_text_single(a);
    lemma_text_single(b);
    lemma_text_single(c);
}

/// Element `i` becomes `mid` in `old_s`, giving `new_s`: the elements stay
/// [`elem_ok`] when those of `mid` are.
pub proof fn lemma_replace_ok(old_s: Seq<Elem>, i: int, mid: Seq<Elem>, n_ann: int)
    requires
        0 <= i < old_s.len(),
        elems_ok(old_s, n_ann),
        elems_ok(mid, n_ann),
    ensures
        elems_ok(old_s.take(i) + mid + old_s.skip(i + 1), n_ann),
{
    let new_s = old_s.take(i) + mid + old_s.skip(i + 1);
    assert forall|k: int| 0 <= k < new_s.len() implies elem_ok(#[trigger] new_s[k], n_ann) by {
        if k < i {
            assert(new_s[k] == old_s[k]);
        } else if k < i + mid.len() {
            assert(new_s[k] == mid[k - i]);
        } else {
            assert(new_s[k] == old_s[k - mid.len() + 1]);
        }
    }
}

/// Merges element `j + 1` into element `j`, which it continues.
#[verifier::rlimit(30)]
#[verifier::spinoff_prover]
fn merge_pair(content: &mut Vec<Elem>, j: usize, Ghost(n_ann): Ghost<int>)
    requires
        elems_ok(old(content)@, n_ann),
        j + 1 < old(content)@.len(),
        old(content)@[j as int].spec_can_merge(&old(content)@[j + 1]),
    ensures
        elems_ok(final(content)@, n_ann),
        text_of_elems(final(content)@) == text_of_elems(old(content)@),
        final(content)@.len() == old(content)@.len() - 1,
        forall|init: Set<i32>| #[trigger] styles_kept(final(content)@, init, old(content)@, init, 0, 0),
{
    let ghost s = content@;
    let ghost x = s[j as int];
    let ghost y = s[j + 1];
    proof {
        assert(elem_ok(x, n_ann));
        assert(elem_ok(y, n_ann));
    }
    let n = content.len();
    assert(j + 1 < n);
    let b = content.remove(j + 1);
    let mut a = content.remove(j);
    a.merge_right(&b);
    content.insert(j, a);
    proof {
        assert(content@ =~= s.take(j as int) + seq![a] + s.skip(j + 2));
        assert(s =~= s.take(j as int) + seq![x, y] + s.skip(j + 2));
        lemma_text_concat(s.take(j as int) + seq![a], s.skip(j + 2));
        lemma_text_concat(s.take(j as int), seq![a]);
        lemma_text_concat(s.take(j as int) + seq![x, y], s.skip(j + 2));
        lemma_text_concat(s.take(j as int), seq![x, y]);
        lemma_text_single(a);
        lemma_text_two_three(x, y, y);
        assert(a.visible() =~= x.visible() + y.visible());
        assert(elem_ok(a, n_ann));
        assert forall|k: int| 0 <= k < content@.len() implies elem_ok(#[trigger] content@[k], n_ann) by {
            if k < j {
                assert(content@[k] == s[k]);
            } else if k > j {
                assert(content@[k] == s[k + 1]);
            }
        }
        let m = content@;
        assert(m[j as int] == a);
        assert(s =~= m.take(j as int) + seq![x, y] + m.skip(j as int + 1));
        assert(s[j as int] == x);
        assert(s[j as int + 1] == y);
        assert(s =~= m.take(j as int) + seq![s[j as int], s[j as int + 1]] + m.skip(j as int + 1));
        assert forall|k: int| 0 <= k < m.len() implies (#[trigger] m[k]).wf() by {
            assert(elem_ok(m[k], n_ann));
        }
        assert forall|k: int| 0 <= k < s.len() implies (#[trigger] s[k]).wf() by {
            assert(elem_ok(s[k], n_ann));
        }
        assert forall|init: Set<i32>| #[trigger] styles_kept(m, init, s, init, 0, 0) by {
            lemma_kept_split(m, s, j as int, init, 0);
        }
    }
}

/// Merges every element into the one before it while it continues it (see
/// [`Elem::spec_can_merge`]); the text stays the same.
fn merge_neighbors(content: &mut Vec<Elem>, Ghost(n_ann): Ghost<int>)
    requires
        elems_ok(old(content)@, n_ann),
    ensures
        elems_ok(final(content)@, n_ann),
        text_of_elems(final(content)@) == text_of_elems(old(content)@),
        forall|init: Set<i32>| #[trigger] styles_kept(final(content)@, init, old(content)@, init, 0, 0),
{
    let ghost s0 = content@;
    proof {
        assert forall|init: Set<i32>| #[trigger] styles_kept(s0, init, s0, init, 0, 0) by {
            lemma_kept_same(s0, init, 0);
        }
    }
    let mut j: usize = content.len();
    while j > 1
        invariant
            elems_ok(content@, n_ann),
            text_of_elems(content@) == text_of_elems(s0),
            j <= content@.len(),
            forall|init: Set<i32>| #[trigger] styles_kept(content@, init, s0, init, 0, 0),
        decreases j,
    {
        proof {
            assert(elem_ok(content@[j - 2], n_ann));
            assert(elem_ok(content@[j - 1], n_ann));
        }
        if content[j - 2].can_merge(&content[j - 1]) {
            let ghost cur = content@;
            merge_pair(content, j - 2, Ghost(n_ann));
            proof {
                let nw = content@;
                assert forall|k: int| 0 <= k < cur.len() implies (#[trigger] cur[k]).wf() by {
                    assert(elem_ok(cur[k], n_ann));
                }
                assert forall|q: int| 0 <= q implies #[trigger] crate::kept::shifted(
                    crate::kept::shifted(q, 0, 0),
                    0,
                    0,
                ) == crate::kept::shifted(q, 0, 0) by {}
                assert forall|init: Set<i32>| #[trigger] styles_kept(nw, init, s0, init, 0, 0) by {
                    assert(styles_kept(nw, init, cur, init, 0, 0));
                    assert(styles_kept(cur, init, s0, init, 0, 0));
                    crate::kept::lemma_kept_compose(nw, init, cur, init, s0, init, 0, 0, 0, 0, 0, 0);
                }
            }
        }
        j = j - 1;
    }
}

/// Element `i` extended in place by `slice`.
#[verifier::spinoff_prover]
#[verifier::rlimit(40)]
fn extend_elem(
    content: &mut Vec<Elem>,
    i: usize,
    slice: &append_only_bytes::BytesSlice,
    Ghost(n_ann): Ghost<int>,
)
    requires
        elems_ok(old(content)@, n_ann),
        i < old(content)@.len(),
        slices_adjacent(old(content)@[i as int].string, *slice),
        valid_utf8(slice_bytes(*slice)),
        old(content)@[i as int].id.counter + old(content)@[i as int].bytes().len() + slice_bytes(
            *slice,
        ).len() <= i32::MAX,
    ensures
        ({
            let old_s = old(content)@;
            let e = final(content)@[i as int];
            &&& final(content)@ == old_s.take(i as int) + seq![e] + old_s.skip(i as int + 1)
            &&& e.bytes() == old_s[i as int].bytes() + slice_bytes(*slice)
            &&& e.status == old_s[i as int].status
            &&& e.anchor_set == old_s[i as int].anchor_set
            &&& elems_ok(final(content)@, n_ann)
        }),
{
    let ghost old_s = content@;
    let ghost b = old_s[i as int].bytes();
    proof {
        assert(elem_ok(old_s[i as int], n_ann));
    }
    let mut e = content.remove(i);
    proof {
        lemma_text_of_concat(b, slice_bytes(*slice));
        lemma_utf16_le_bytes(b + slice_bytes(*slice));
    }
    e.merge_slice(slice);
    content.insert(i, e);
    proof {
        assert(content@ =~= old_s.take(i as int) + seq![e] + old_s.skip(i as int + 1));
        assert(elem_ok(e, n_ann));
        assert(elems_ok(seq![e], n_ann));
        lemma_replace_ok(old_s, i as int, seq![e], n_ann);
    }
}

/// A new element `ne` put after byte `off` of element `i`, which is split
/// when `off` falls inside it.
#[verifier::spinoff_prover]
#[verifier::rlimit(40)]
fn insert_elem_at(content: &mut Vec<Elem>, i: usize, off: usize, ne: Elem, Ghost(n_ann): Ghost<int>)
    requires
        elems_ok(old(content)@, n_ann),
        elem_ok(ne, n_ann),
        ne.anchor_set.start_before@ == Set::<i32>::empty(),
        ne.anchor_set.end_before@ == Set::<i32>::empty(),
        ne.anchor_set.start_after@ == Set::<i32>::empty(),
        ne.anchor_set.end_after@ == Set::<i32>::empty(),
        i < old(content)@.len(),
        0 < off <= old(content)@[i as int].bytes().len(),
        off < old(content)@[i as int].bytes().len() ==> is_char_boundary(
            old(content)@[i as int].bytes(),
            off as int,
        ),
    ensures
        elems_ok(final(content)@, n_ann),
        forall|init: Set<i32>|
            #[trigger] styles_kept(
                old(content)@,
                init,
                final(content)@,
                init,
                cursor_index(old(content)@, i as int, off as int),
                ne.visible().len() as int,
            ),
        ({
            let old_s = old(content)@;
            let b = old_s[i as int].visible();
            let o = if old_s[i as int].status.spec_is_dead() {
                0
            } else {
                off as int
            };
            text_of_elems(final(content)@) == text_of_elems(old_s.take(i as int)) + b.take(o)
                + ne.visible() + b.skip(o) + text_of_elems(old_s.skip(i as int + 1))
        }),
{
    let ghost old_s = content@;
    let ghost b = old_s[i as int].bytes();
    let n = content.len();
    proof {
        assert(elem_ok(old_s[i as int], n_ann));
        lemma_replace_one(old_s, i as int, seq![old_s[i as int], ne]);
        lemma_text_two_three(old_s[i as int], ne, ne);
    }
    let len_i = content[i].atom_len();
    if off == len_i {
        content.insert(i + 1, ne);
        proof {
            let mid = seq![old_s[i as int], ne];
            assert(content@ =~= old_s.take(i as int) + mid + old_s.skip(i as int + 1));
            assert(elems_ok(mid, n_ann));
            lemma_replace_ok(old_s, i as int, mid, n_ann);
            let v = old_s[i as int].visible();
            let o = if old_s[i as int].status.spec_is_dead() {
                0
            } else {
                off as int
            };
            assert(v.take(o) =~= v);
            assert(v.skip(o) =~= Seq::<u8>::empty());
            let b = content@;
            assert(b =~= old_s.take(i as int + 1) + seq![ne] + old_s.skip(i as int + 1));
            assert forall|k: int| 0 <= k < old_s.len() implies (#[trigger] old_s[k]).wf() by {
                assert(elem_ok(old_s[k], n_ann));
            }
            assert forall|k: int| 0 <= k < b.len() implies (#[trigger] b[k]).wf() by {
                assert(elem_ok(b[k], n_ann));
            }
            crate::anchors::lemma_prefix_step(old_s, i as int);
            assert forall|init: Set<i32>|
                #[trigger] styles_kept(
                    old_s,
                    init,
                    b,
                    init,
                    cursor_index(old_s, i as int, off as int),
                    ne.visible().len() as int,
                ) by {
                lemma_kept_insert_elem(old_s, b, i as int + 1, init);
            }
        }
    } else {
        let mut e = content.remove(i);
        let right_half = e.split(off);
        content.insert(i, e);
        content.insert(i + 1, ne);
        assert(i + 1 < content.len());
        content.insert(i + 2, right_half);
        proof {
            let mid = seq![e, ne, right_half];
            assert(content@ =~= old_s.take(i as int) + mid + old_s.skip(i as int + 1));
            assert(elems_ok(mid, n_ann));
            lemma_replace_ok(old_s, i as int, mid, n_ann);
            lemma_replace_one(old_s, i as int, mid);
            lemma_text_two_three(e, ne, right_half);
            let v = old_s[i as int].visible();
            if old_s[i as int].status.spec_is_dead() {
                assert(v.take(0) =~= Seq::<u8>::empty());
                assert(v.skip(0) =~= v);
            }
            let b = content@;
            let sp = old_s.take(i as int) + seq![e, right_half] + old_s.skip(i as int + 1);
            assert(b =~= sp.take(i as int + 1) + seq![ne] + sp.skip(i as int + 1));
            assert(sp[i as int] == e);
            assert(sp[i as int + 1] == right_half);
            assert(sp =~= old_s.take(i as int) + seq![sp[i as int], sp[i as int + 1]] + old_s.skip(i as int + 1));
            assert forall|k: int| 0 <= k < old_s.len() implies (#[trigger] old_s[k]).wf() by {
                assert(elem_ok(old_s[k], n_ann));
            }
            assert forall|k: int| 0 <= k < b.len() implies (#[trigger] b[k]).wf() by {
                assert(elem_ok(b[k], n_ann));
            }
            assert forall|k: int| 0 <= k < sp.len() implies (#[trigger] sp[k]).wf() by {
                if k < i {
                    assert(sp[k] == old_s[k]);
                } else if k > i + 1 {
                    assert(sp[k] == old_s[k - 1]);
                }
            }
            assert(old_s[i as int].bytes() =~= e.bytes() + right_half.bytes());
            assert(e.visible() + right_half.visible() =~= old_s[i as int].visible());
            split_anchor_facts(old_s, i as int, e, right_half, n_ann);
            crate::anchors::lemma_prefix_split(old_s, sp, i as int);
            assert forall|init: Set<i32>|
                #[trigger] styles_kept(
                    old_s,
                    init,
                    b,
                    init,
                    cursor_index(old_s, i as int, off as int),
                    ne.visible().len() as int,
                ) by {
                let index = cursor_index(old_s, i as int, off as int);
                lemma_kept_split(old_s, sp, i as int, init, index);
                lemma_kept_insert_elem(sp, b, i as int + 1, init);
                lemma_kept_then(old_s, init, sp, init, b, init, index, ne.visible().len() as int);
            }
        }
    }
}

/// Puts a new visible run `slice` with id `id` at byte `off` of element `i`
/// (between `left` and `right`): extends the element in place when it can,
/// else inserts a new element there, splitting element `i` when `off` falls
/// inside it.
#[verifier::spinoff_prover]
#[verifier::rlimit(40)]
fn splice_new_slice(
    content: &mut Vec<Elem>,
    i: usize,
    off: usize,
    id: OpID,
    left: OpID,
    right: Option<OpID>,
    slice: append_only_bytes::BytesSlice,
    Ghost(n_ann): Ghost<int>,
)
    requires
        elems_ok(old(content)@, n_ann),
        i < old(content)@.len(),
        0 < off <= old(content)@[i as int].bytes().len(),
        off < old(content)@[i as int].bytes().len() ==> {
            &&& !old(content)@[i as int].status.spec_is_dead()
            &&& is_char_boundary(old(content)@[i as int].bytes(), off as int)
        },
        slice_bytes(slice).len() > 0,
        valid_utf8(slice_bytes(slice)),
        id.counter + slice_bytes(slice).len() <= i32::MAX,
    ensures
        elems_ok(final(content)@, n_ann),
        ({
            let t = text_of_elems(old(content)@);
            let index = cursor_index(old(content)@, i as int, off as int);
            text_of_elems(final(content)@) == t.take(index) + slice_bytes(slice) + t.skip(index)
        }),
        forall|init: Set<i32>|
            #[trigger] styles_kept(
                old(content)@,
                init,
                final(content)@,
                init,
                cursor_index(old(content)@, i as int, off as int),
                slice_bytes(slice).len() as int,
            ),
{
    let ghost old_s = content@;
    let ghost t = text_of_elems(old_s);
    let ghost sb = slice_bytes(slice);
    let ghost index = cursor_index(old_s, i as int, off as int);
    let ghost ti = text_of_elems(old_s.take(i as int));
    let ghost rest = text_of_elems(old_s.skip(i as int + 1));
    let ghost v = old_s[i as int].visible();
    proof {
        assert(elem_ok(old_s[i as int], n_ann));
        lemma_text_split_at(old_s, i as int);
    }
    let len_i = content[i].atom_len();
    if off == len_i && can_merge_new_slice(&content[i], id, right, &slice) {
        extend_elem(content, i, &slice, Ghost(n_ann));
        proof {
            let e = content@[i as int];
            lemma_replace_one(old_s, i as int, seq![e]);
            lemma_text_single(e);
            assert(t.take(index) =~= ti + v);
            assert(t.skip(index) =~= rest);
            let b = content@;
            assert forall|k: int| 0 <= k < old_s.len() implies (#[trigger] old_s[k]).wf() by {
                assert(elem_ok(old_s[k], n_ann));
            }
            assert forall|k: int| 0 <= k < b.len() implies (#[trigger] b[k]).wf() by {
                assert(elem_ok(b[k], n_ann));
            }
            crate::anchors::lemma_prefix_step(old_s, i as int);
            assert forall|init: Set<i32>|
                #[trigger] styles_kept(old_s, init, b, init, index, sb.len() as int) by {
                lemma_kept_extend(old_s, b, i as int, init, sb);
            }
        }
    } else {
        let ne = Elem::new(id, Some(left), right, slice);
        proof {
            assert(elem_ok(ne, n_ann));
        }
        insert_elem_at(content, i, off, ne, Ghost(n_ann));
        proof {
            let o = if old_s[i as int].status.spec_is_dead() {
                0
            } else {
                off as int
            };
            assert(t =~= ti + v + rest);
            assert(t.take(index) =~= ti + v.take(o));
            assert(t.skip(index) =~= v.skip(o) + rest);
        }
    }
}

impl RichText {
    /// Inserts `string` at byte index `index` of the text.
#[verifier::spinoff_prover]
#[verifier::rlimit(40)]
    pub fn insert(&mut self, index: usize, string: &str)
        requires
            old(self).wf(),
            index <= old(self).text().len(),
            is_char_boundary(old(self).text(), index as int),
            old(self).text().len() + encode_utf8(string@).len() < u32::MAX,
            old(self).has_room(encode_utf8(string@).len() as int),
        ensures
            final(self).annotations() == old(self).annotations(),
            final(self).wf(),
            final(self).text() == old(self).text().take(index as int) + encode_utf8(string@)
                + old(self).text().skip(index as int),
            final(self).next_counter() == old(self).next_counter() + encode_utf8(string@).len(),
            final(self).next_lamport() == old(self).next_lamport() + encode_utf8(string@).len(),
            final(self).client() == old(self).client(),
            styles_kept(
                old(self).elems(),
                old(self).init_active(),
                final(self).elems(),
                final(self).init_active(),
                index as int,
                encode_utf8(string@).len() as int,
            ),
            string@.len() == 0 ==> *final(self) == *old(self),
            forall|c: ClientID| c != old(self).client() ==> #[trigger] final(self).history(c) == old(self).history(c),
            string@.len() > 0 ==> exists|op: Op|
                local_insert_op(*old(self), index as int, encode_utf8(string@), op) && #[trigger] recorded(
                    old(self).history(old(self).client()),
                    final(self).history(old(self).client()),
                    op,
                ),
    {
        let ghost old_s = self.content@;
        let ghost t = text_of_elems(old_s);
        let ghost sb = encode_utf8(string@);
        let ghost init = self.init_styles.inner@;
        let n_bytes = string.as_bytes().len();
        if n_bytes == 0 {
            proof {
                assert(t =~= t.take(index as int) + sb + t.skip(index as int));
                lemma_kept_same(old_s, init, index as int);
            }
            return;
        }
        let start = buffer_len(&self.bytes);
        buffer_push_str(&mut self.bytes, string);
        let slice = buffer_slice_from(&self.bytes, start);
        proof {
            assert(slice_bytes(slice) =~= sb);
            encode_utf8_valid_utf8(string@);
            lemma_text_valid(old_s);
            assert forall|k: int| 0 <= k < old_s.len() implies (#[trigger] old_s[k]).wf() by {
                assert(elem_ok(old_s[k], self.ann.idx_to_ann.len() as int));
            }
        }
        let id = self.store.next_id();
        let ghost n_ann = self.ann.idx_to_ann.len() as int;
        if index == 0 {
            let right_origin: Option<OpID> = if self.content.len() > 0 {
                Some(self.content[0].id)
            } else {
                None
            };
            let op_slice = bytes_clone(&slice);
            let e = Elem::new(id, None, right_origin, slice);
            self.content.insert(0, e);
            self.store.insert_local(OpContent::new_insert(None, right_origin, op_slice));
            proof {
                let op = Op {
                    id: OpID { client: old(self).client(), counter: old(self).next_counter() as u32 },
                    lamport: old(self).next_lamport() as u32,
                    content: OpContent::Text(TextInsertOp { text: op_slice, left: None, right: right_origin }),
                };
                assert(local_insert_op(*old(self), index as int, sb, op));
                assert(recorded(old(self).history(old(self).client()), self.history(old(self).client()), op));
            }
            proof {
                assert(self.content@ =~= seq![e] + old_s);
                lemma_text_concat(seq![e], old_s);
                lemma_text_single(e);
                assert(t.take(0) =~= Seq::<u8>::empty());
                assert(t.skip(0) =~= t);
                assert forall|k: int| 0 <= k < self.content@.len() implies elem_ok(
                    #[trigger] self.content@[k],
                    n_ann,
                ) by {
                    if k > 0 {
                        assert(self.content@[k] == old_s[k - 1]);
                    }
                }
                let b = self.content@;
                assert(b =~= old_s.take(0) + seq![e] + old_s.skip(0));
                assert forall|k: int| 0 <= k < b.len() implies (#[trigger] b[k]).wf() by {
                    assert(elem_ok(b[k], n_ann));
                }
                assert(old_s.take(0) =~= Seq::<Elem>::empty());
                lemma_kept_insert_elem(old_s, b, 0, init);
            }
        } else {
            let (i, off) = self.find_ideal_right_origin(index);
            let n = self.content.len();
            let len_i = self.content[i].atom_len();
            proof {
                assert(elem_ok(old_s[i as int], n_ann));
                lemma_text_split_at(old_s, i as int);
                if i + 1 < n {
                    assert(elem_ok(old_s[i as int + 1], n_ann));
                }
            }
            let left = self.content[i].id.inc((off - 1) as u32);
            let right: Option<OpID> = if off < len_i {
                Some(self.content[i].id.inc(off as u32))
            } else if i + 1 < n {
                Some(self.content[i + 1].id)
            } else {
                None
            };
            let op_slice = bytes_clone(&slice);
            splice_new_slice(&mut self.content, i, off, id, left, right, slice, Ghost(n_ann));
            self.store.insert_local(OpContent::new_insert(Some(left), right, op_slice));
            proof {
                let op = Op {
                    id: OpID { client: old(self).client(), counter: old(self).next_counter() as u32 },
                    lamport: old(self).next_lamport() as u32,
                    content: OpContent::Text(TextInsertOp { text: op_slice, left: Some(left), right }),
                };
                assert(cursor_index(old_s, i as int, off as int) == index);
                assert(insert_origins(old_s, index as int, Some(left), right));
                assert(local_insert_op(*old(self), index as int, sb, op));
                assert(recorded(old(self).history(old(self).client()), self.history(old(self).client()), op));
            }
        }
    }
}


/// The text left of a deletion of `start..end` once the scan has reached
/// text index `pos`: what lies before `start`, and what lies between `end`
/// and `pos`.
pub open spec fn kept_prefix(t: Seq<u8>, start: int, end: int, pos: int) -> Seq<u8> {
    t.take(if pos < start {
        pos
    } else {
        start
    }) + if pos > end {
        t.subrange(end, pos)
    } else {
        Seq::empty()
    }
}

/// A character boundary `b` after the boundary `a` is a boundary of the
/// bytes from `a` on.
pub proof fn lemma_skip_boundary(bs: Seq<u8>, a: int, b: int)
    requires
        valid_utf8(bs),
        0 <= a <= b <= bs.len(),
        is_char_boundary(bs, a),
        is_char_boundary(bs, b),
    ensures
        valid_utf8(bs.skip(a)),
        is_char_boundary(bs.skip(a), b - a),
{
    crate::rich_tree::lemma_char_boundary_split(bs, a);
    let t = bs.skip(a);
    if b == bs.len() || b == a {
        is_char_boundary_start_end_of_seq(t);
    } else {
        is_char_boundary_iff_not_is_continuation_byte(bs, b);
        is_char_boundary_iff_not_is_continuation_byte(t, b - a);
        assert(t[b - a] == bs[b]);
    }
}

/// Marks bytes `a..b` of the visible element `i` deleted, splitting it where
/// needed. Answers the index of the first element after the pieces, and the
/// id of the first deleted atom.
#[verifier::spinoff_prover]
#[verifier::rlimit(80)]
fn kill_range(content: &mut Vec<Elem>, i: usize, a: usize, b: usize, Ghost(n_ann): Ghost<int>) -> (r: (usize, OpID))
    requires
        elems_ok(old(content)@, n_ann),
        i < old(content)@.len(),
        !old(content)@[i as int].status.spec_is_dead(),
        a < b <= old(content)@[i as int].bytes().len(),
        is_char_boundary(old(content)@[i as int].bytes(), a as int),
        is_char_boundary(old(content)@[i as int].bytes(), b as int),
    ensures
        elems_ok(final(content)@, n_ann),
        ({
            let old_s = old(content)@;
            let e = old_s[i as int];
            let bs = e.bytes();
            let mid = final(content)@.subrange(i as int, r.0 as int);
            &&& i < r.0 <= i + 3
            &&& r.0 <= final(content)@.len()
            &&& final(content)@.len() == old_s.len() + (r.0 - i - 1)
            &&& final(content)@ == old_s.take(i as int) + mid + old_s.skip(i as int + 1)
            &&& text_of_elems(mid) == bs.take(a as int) + bs.skip(b as int)
            &&& r.1 == id_at(e.id, a as int)
            &&& r.1.counter + (b - a) <= i32::MAX
        }),
        forall|init: Set<i32>|
            #[trigger] styles_kept(
                final(content)@,
                init,
                old(content)@,
                init,
                elems_prefix(old(content)@, i as int) + a,
                b - a,
            ),
        text_of_elems(old(content)@).len() == text_of_elems(final(content)@).len() + (b - a),
{
    let ghost old_s = content@;
    let ghost e0 = old_s[i as int];
    let ghost bs = e0.bytes();
    proof {
        assert(elem_ok(e0, n_ann));
        lemma_skip_boundary(bs, a as int, b as int);
    }
    let mut e = content.remove(i);
    let ghost mut left_g: Elem = e0;
    let ghost mut right_g: Elem = e0;
    let len = e.atom_len();
    let mut at: usize = i;
    let ghost mut mid: Seq<Elem> = Seq::empty();
    proof {
        assert(content@ =~= old_s.take(i as int) + mid + old_s.skip(i as int + 1));
    }
    if a > 0 {
        let rest = e.split(a);
        proof {
            left_g = e;
        }
        content.insert(at, e);
        proof {
            mid = mid.push(e);
            assert(content@ =~= old_s.take(i as int) + mid + old_s.skip(i as int + 1));
        }
        let cl = content.len();
        assert(at < cl);
        at = at + 1;
        e = rest;
    }
    proof {
        assert(e.bytes() =~= bs.skip(a as int));
        assert(e.id == id_at(e0.id, a as int));
        assert(mid.len() == at - i);
    }
    let id = e.id;
    let ghost r1 = e;
    let mut tail: Option<Elem> = None;
    if b < len {
        let r2 = e.split(b - a);
        proof {
            right_g = r2;
        }
        tail = Some(r2);
        proof {
            assert(r2.bytes() =~= bs.skip(b as int));
        }
    }
    proof {
        assert(e.bytes() =~= bs.subrange(a as int, b as int));
    }
    let ghost d0 = e;
    e.local_delete();
    let ghost ed = e;
    assert(at < content.len() + 1);
    content.insert(at, e);
    proof {
        mid = mid.push(ed);
        assert(content@ =~= old_s.take(i as int) + mid + old_s.skip(i as int + 1));
    }
    let cl = content.len();
    assert(at < cl);
    at = at + 1;
    match tail {
        Some(r2) => {
            assert(at < content.len() + 1);
            content.insert(at, r2);
            proof {
                mid = mid.push(r2);
                assert(content@ =~= old_s.take(i as int) + mid + old_s.skip(i as int + 1));
            }
            let cl = content.len();
            assert(at < cl);
            at = at + 1;
        },
        None => {},
    }
    proof {
        assert(mid.len() == at - i);
        assert forall|j: int| 0 <= j < mid.len() implies elem_ok(#[trigger] mid[j], n_ann) by {}
        lemma_replace_ok(old_s, i as int, mid, n_ann);
        assert(content@.subrange(i as int, at as int) =~= mid);
        assert(ed.visible() =~= Seq::<u8>::empty());
        if a > 0 {
            if b < len {
                lemma_text_two_three(mid[0], mid[1], mid[2]);
                assert(mid =~= seq![mid[0], mid[1], mid[2]]);
            } else {
                lemma_text_two_three(mid[0], mid[1], mid[1]);
                assert(mid =~= seq![mid[0], mid[1]]);
                assert(bs.skip(b as int) =~= Seq::<u8>::empty());
            }
        } else {
            assert(bs.take(0) =~= Seq::<u8>::empty());
            if b < len {
                lemma_text_two_three(mid[0], mid[1], mid[1]);
                assert(mid =~= seq![mid[0], mid[1]]);
            } else {
                lemma_text_single(mid[0]);
                assert(mid =~= seq![mid[0]]);
                assert(bs.skip(b as int) =~= Seq::<u8>::empty());
            }
        }
        assert(text_of_elems(mid) =~= bs.take(a as int) + bs.skip(b as int));
        assert(mid =~= (if a > 0 {
            seq![left_g]
        } else {
            Seq::<Elem>::empty()
        }) + seq![ed] + (if b < len {
            seq![right_g]
        } else {
            Seq::<Elem>::empty()
        }));
        let fin = content@;
        assert(fin =~= old_s.take(i as int) + (if a > 0 {
            seq![left_g]
        } else {
            Seq::<Elem>::empty()
        }) + seq![ed] + (if b < len {
            seq![right_g]
        } else {
            Seq::<Elem>::empty()
        }) + old_s.skip(i as int + 1));
        assert forall|j: int| 0 <= j < old_s.len() implies (#[trigger] old_s[j]).wf() by {
            assert(elem_ok(old_s[j], n_ann));
        }
        assert forall|j: int| 0 <= j < fin.len() implies (#[trigger] fin[j]).wf() by {
            assert(elem_ok(fin[j], n_ann));
        }
        assert forall|init: Set<i32>|
            #[trigger] styles_kept(fin, init, old_s, init, elems_prefix(old_s, i as int) + a, b - a) by {
            crate::kept::lemma_kept_kill_range(
                old_s,
                fin,
                i as int,
                a as int,
                b as int,
                left_g,
                r1,
                d0,
                ed,
                right_g,
                init,
            );
        }
        crate::kept::lemma_kept_kill_range(
            old_s,
            fin,
            i as int,
            a as int,
            b as int,
            left_g,
            r1,
            d0,
            ed,
            right_g,
            Set::<i32>::empty(),
        );
    }
    (at, id)
}

/// The number of atoms in a list of deleted runs.
pub open spec fn runs_len(s: Seq<(OpID, usize)>) -> int
    decreases s.len(),
{
    if s.len() == 0 {
        0
    } else {
        runs_len(s.drop_last()) + s.last().1
    }
}

/// A deleted run of at least one atom whose counters fit an `i32`.
pub open spec fn run_ok(r: (OpID, usize)) -> bool {
    r.1 >= 1 && r.0.counter + r.1 <= i32::MAX
}

/// Reading element `i` of `s` when the text from element `i` on is the
/// text `t` from `pos` on.
pub proof fn lemma_skip_step(s: Seq<Elem>, i: int, t: Seq<u8>, pos: int)
    requires
        0 <= i < s.len(),
        0 <= pos <= t.len(),
        text_of_elems(s.skip(i)) == t.skip(pos),
    ensures
        pos + s[i].visible().len() <= t.len(),
        s[i].visible() == t.subrange(pos, pos + s[i].visible().len()),
        text_of_elems(s.skip(i + 1)) == t.skip(pos + s[i].visible().len()),
{
    assert(s.skip(i) =~= seq![s[i]] + s.skip(i + 1));
    lemma_text_concat(seq![s[i]], s.skip(i + 1));
    lemma_text_single(s[i]);
    let v = s[i].visible();
    let rest = text_of_elems(s.skip(i + 1));
    assert(t.skip(pos) == v + rest);
    assert(v =~= t.skip(pos).take(v.len() as int));
    assert(rest =~= t.skip(pos).skip(v.len() as int));
}

/// Passing a visible element that lies wholly before the deletion keeps it.
pub proof fn lemma_kept_before(t: Seq<u8>, start: int, end: int, pos: int, l: int)
    requires
        0 <= pos,
        0 < l,
        pos + l <= start < end <= t.len(),
    ensures
        kept_prefix(t, start, end, pos + l) == kept_prefix(t, start, end, pos) + t.subrange(
            pos,
            pos + l,
        ),
{
    assert(kept_prefix(t, start, end, pos + l) =~= kept_prefix(t, start, end, pos) + t.subrange(
        pos,
        pos + l,
    ));
}

/// The cut points of the deletion inside a visible element are character
/// boundaries of the element.
/// A character boundary of `t` inside the window `bs` of `t` that starts at
/// `pos` is a character boundary of the window.
#[verifier::rlimit(30)]
#[verifier::spinoff_prover]
pub proof fn lemma_window_boundary(t: Seq<u8>, pos: int, bs: Seq<u8>, k: int)
    requires
        valid_utf8(t),
        valid_utf8(bs),
        0 <= pos,
        pos + bs.len() <= t.len(),
        bs == t.subrange(pos, pos + bs.len()),
        0 < k < bs.len(),
        is_char_boundary(t, pos + k),
    ensures
        is_char_boundary(bs, k),
{
    is_char_boundary_iff_not_is_continuation_byte(t, pos + k);
    is_char_boundary_iff_not_is_continuation_byte(bs, k);
    assert(bs[k] == t[pos + k]);
}

pub proof fn lemma_piece_boundaries(
    t: Seq<u8>,
    pos: int,
    l: int,
    bs: Seq<u8>,
    a: int,
    b: int,
    start: int,
    end: int,
)
    requires
        valid_utf8(t),
        valid_utf8(bs),
        0 <= pos,
        0 < l,
        pos + l <= t.len(),
        bs == t.subrange(pos, pos + l),
        l == bs.len(),
        is_char_boundary(t, start),
        is_char_boundary(t, end),
        a == if start > pos {
            start - pos
        } else {
            0
        },
        b == if end < pos + l {
            end - pos
        } else {
            l
        },
        pos < end,
        start < pos + l,
        start < end,
    ensures
        0 <= a < b <= l,
        is_char_boundary(bs, a),
        is_char_boundary(bs, b),
{
    if a > 0 {
        lemma_window_boundary(t, pos, bs, a);
    } else {
        is_char_boundary_start_end_of_seq(bs);
    }
    if b < l {
        lemma_window_boundary(t, pos, bs, b);
    } else {
        is_char_boundary_start_end_of_seq(bs);
    }
}

/// Cutting bytes `a..b` of the element that covers text `pos..pos + l`
/// advances the kept text.
pub proof fn lemma_kept_cut(
    t: Seq<u8>,
    start: int,
    end: int,
    pos: int,
    l: int,
    bs: Seq<u8>,
    a: int,
    b: int,
)
    requires
        0 <= pos < end,
        start < end <= t.len(),
        0 <= start,
        pos + l <= t.len(),
        start < pos + l,
        bs == t.subrange(pos, pos + l),
        l == bs.len(),
        a == if start > pos {
            start - pos
        } else {
            0
        },
        b == if end < pos + l {
            end - pos
        } else {
            l
        },
    ensures
        kept_prefix(t, start, end, pos + l) == kept_prefix(t, start, end, pos) + bs.take(a) + bs.skip(
            b,
        ),
{
    assert(kept_prefix(t, start, end, pos + l) =~= kept_prefix(t, start, end, pos) + bs.take(a)
        + bs.skip(b));
}

/// Marks the text bytes `start..end` deleted. Answers the runs of ids that
/// were visible and are now deleted, in text order.
#[verifier::rlimit(60)]
#[verifier::spinoff_prover]
fn delete_span(content: &mut Vec<Elem>, start: usize, end: usize, Ghost(n_ann): Ghost<int>) -> (deleted: Vec<(OpID, usize)>)
    requires
        elems_ok(old(content)@, n_ann),
        start < end <= text_of_elems(old(content)@).len(),
        text_of_elems(old(content)@).len() <= u32::MAX,
        is_char_boundary(text_of_elems(old(content)@), start as int),
        is_char_boundary(text_of_elems(old(content)@), end as int),
    ensures
        elems_ok(final(content)@, n_ann),
        ({
            let t = text_of_elems(old(content)@);
            text_of_elems(final(content)@) == t.take(start as int) + t.skip(end as int)
        }),
        runs_len(deleted@) == end - start,
        forall|k: int| 0 <= k < deleted@.len() ==> run_ok(#[trigger] deleted@[k]),
        forall|init: Set<i32>|
            #[trigger] styles_kept(final(content)@, init, old(content)@, init, start as int, end - start),
{
    let ghost t = text_of_elems(content@);
    let ghost s_orig = content@;
    proof {
        assert forall|k: int| 0 <= k < content@.len() implies (#[trigger] content@[k]).wf() by {
            assert(elem_ok(content@[k], n_ann));
        }
        lemma_text_valid(content@);
        assert(content@.take(0) =~= Seq::<Elem>::empty());
        assert(content@.skip(0) =~= content@);
        assert(kept_prefix(t, start as int, end as int, 0) =~= Seq::<u8>::empty());
        assert forall|init: Set<i32>|
            #[trigger] styles_kept(s_orig, init, s_orig, init, start as int, 0) by {
            lemma_kept_same(s_orig, init, start as int);
        }
    }
    let mut deleted: Vec<(OpID, usize)> = Vec::new();
    let mut i: usize = 0;
    let mut pos: usize = 0;
    while pos < end
        invariant
            elems_ok(content@, n_ann),
            valid_utf8(t),
            start < end <= t.len(),
            t.len() <= u32::MAX,
            is_char_boundary(t, start as int),
            is_char_boundary(t, end as int),
            i <= content@.len(),
            pos <= t.len(),
            text_of_elems(content@.take(i as int)) == kept_prefix(t, start as int, end as int, pos as int),
            text_of_elems(content@.skip(i as int)) == t.skip(pos as int),
            runs_len(deleted@) == if pos <= start {
                0
            } else if pos <= end {
                pos - start
            } else {
                end - start
            },
            forall|k: int| 0 <= k < deleted@.len() ==> run_ok(#[trigger] deleted@[k]),
            forall|init: Set<i32>|
                #[trigger] styles_kept(content@, init, s_orig, init, start as int, runs_len(deleted@)),
            text_of_elems(content@).len() + runs_len(deleted@) == t.len(),
        decreases t.len() - pos, content@.len() - i,
    {
        let ghost s = content@;
        if i == content.len() {
            proof {
                assert(s.skip(i as int) =~= Seq::<Elem>::empty());
                assert(t.skip(pos as int).len() == 0);
            }
            assert(false);
        }
        proof {
            assert(elem_ok(s[i as int], n_ann));
            lemma_skip_step(s, i as int, t, pos as int);
            lemma_text_split_at(s, i as int);
        }
        let l = content[i].content_len();
        if l == 0 {
            proof {
                assert(s[i as int].visible() =~= Seq::<u8>::empty());
                assert(text_of_elems(s.take(i as int + 1)) =~= text_of_elems(s.take(i as int)));
            }
            i = i + 1;
            continue;
        }
        let ghost bs = s[i as int].bytes();
        if pos + l <= start {
            proof {
                lemma_kept_before(t, start as int, end as int, pos as int, l as int);
            }
            pos = pos + l;
            i = i + 1;
            continue;
        }
        let a: usize = if start > pos {
            start - pos
        } else {
            0
        };
        let b: usize = if end < pos + l {
            end - pos
        } else {
            l
        };
        proof {
            lemma_piece_boundaries(t, pos as int, l as int, bs, a as int, b as int, start as int, end as int);
        }
        let ghost cur = content@;
        let ghost d = runs_len(deleted@);
        let (ni, id) = kill_range(content, i, a, b, Ghost(n_ann));
        proof {
            let nw = content@;
            assert(elems_prefix(cur, i as int) + a == start);
            assert forall|k: int| 0 <= k < cur.len() implies (#[trigger] cur[k]).wf() by {
                assert(elem_ok(cur[k], n_ann));
            }
            assert forall|q: int| 0 <= q implies #[trigger] crate::kept::shifted(
                crate::kept::shifted(q, start as int, b - a),
                start as int,
                d,
            ) == crate::kept::shifted(q, start as int, d + (b - a)) by {}
            assert forall|init: Set<i32>|
                #[trigger] styles_kept(nw, init, s_orig, init, start as int, d + (b - a)) by {
                assert(styles_kept(nw, init, cur, init, start as int, b - a));
                assert(styles_kept(cur, init, s_orig, init, start as int, d));
                crate::kept::lemma_kept_compose(
                    nw,
                    init,
                    cur,
                    init,
                    s_orig,
                    init,
                    start as int,
                    b - a,
                    start as int,
                    d,
                    start as int,
                    d + (b - a),
                );
            }
        }
        let ghost before = deleted@;
        deleted.push((id, b - a));
        proof {
            let mid = content@.subrange(i as int, ni as int);
            assert(content@.take(ni as int) =~= s.take(i as int) + mid);
            assert(content@.skip(ni as int) =~= s.skip(i as int + 1));
            lemma_text_concat(s.take(i as int), mid);
            assert(deleted@.drop_last() =~= before);
            lemma_kept_cut(t, start as int, end as int, pos as int, l as int, bs, a as int, b as int);
        }
        pos = pos + l;
        i = ni;
    }
    proof {
        let s = content@;
        assert(s =~= s.take(i as int) + s.skip(i as int));
        lemma_text_concat(s.take(i as int), s.skip(i as int));
        if pos > end {
            assert(t.subrange(end as int, pos as int) + t.skip(pos as int) =~= t.skip(end as int));
        } else {
            assert(pos == end);
        }
        assert(text_of_elems(s) =~= t.take(start as int) + t.skip(end as int));
    }
    deleted
}

/// The runs before `k` and run `k` make the runs before `k + 1`; a prefix
/// holds no more atoms than the whole list.
pub proof fn lemma_runs_prefix(s: Seq<(OpID, usize)>, k: int)
    requires
        0 <= k < s.len(),
    ensures
        runs_len(s.take(k + 1)) == runs_len(s.take(k)) + s[k].1,
        runs_len(s.take(k + 1)) <= runs_len(s),
    decreases s.len() - k,
{
    assert(s.take(k + 1).drop_last() =~= s.take(k));
    if k + 1 < s.len() {
        lemma_runs_prefix(s, k + 1);
    } else {
        assert(s.take(k + 1) =~= s);
    }
}

impl RichText {
    /// Deletes the bytes `start..end` of the text, recording deletion
    /// operations of this peer (one for each run of consecutive ids).
    pub fn delete(&mut self, start: usize, end: usize)
        requires
            old(self).wf(),
            start <= end,
            start < end ==> end <= old(self).text().len(),
            start < end ==> is_char_boundary(old(self).text(), start as int),
            start < end ==> is_char_boundary(old(self).text(), end as int),
            old(self).has_room(end - start),
        ensures
            final(self).annotations() == old(self).annotations(),
            final(self).wf(),
            start < end ==> final(self).text() == old(self).text().take(start as int) + old(self).text().skip(
                end as int,
            ),
            final(self).next_counter() == old(self).next_counter() + (end - start),
            final(self).next_lamport() == old(self).next_lamport() + (end - start),
            final(self).client() == old(self).client(),
            styles_kept(
                final(self).elems(),
                final(self).init_active(),
                old(self).elems(),
                old(self).init_active(),
                start as int,
                end - start,
            ),
            start == end ==> *final(self) == *old(self),
            forall|c: ClientID| c != old(self).client() ==> #[trigger] final(self).history(c) == old(self).history(c),
            exists|ops: Seq<Op>|
                recorded_seq(old(self).history(old(self).client()), final(self).history(old(self).client()), ops)
                    && forall|i: int|
                    0 <= i < ops.len() ==> (#[trigger] ops[i]).content is Del && ops[i].id.client == old(self).client(),
    {
        let ghost t = self.text();
        let ghost s0 = self.content@;
        let ghost init = self.init_styles.inner@;
        if start == end {
            proof {
                lemma_kept_same(s0, init, start as int);
                let e = Seq::<Op>::empty();
                assert(recorded_seq(old(self).history(old(self).client()), self.history(old(self).client()), e)
                    && forall|i: int|
                    0 <= i < e.len() ==> (#[trigger] e[i]).content is Del && e[i].id.client == old(self).client());
            }
            return;
        }
        let ghost n_ann = self.ann.idx_to_ann.len() as int;
        let deleted = delete_span(&mut self.content, start, end, Ghost(n_ann));
        let ghost s1 = self.content@;
        merge_neighbors(&mut self.content, Ghost(n_ann));
        proof {
            let s2 = self.content@;
            assert forall|k: int| 0 <= k < s1.len() implies (#[trigger] s1[k]).wf() by {
                assert(elem_ok(s1[k], n_ann));
            }
            assert forall|q: int| 0 <= q implies #[trigger] crate::kept::shifted(
                crate::kept::shifted(q, 0, 0),
                start as int,
                end - start,
            ) == crate::kept::shifted(q, start as int, end - start) by {}
            assert(styles_kept(s2, init, s1, init, 0, 0));
            assert(styles_kept(s1, init, s0, init, start as int, end - start));
            crate::kept::lemma_kept_compose(
                s2,
                init,
                s1,
                init,
                s0,
                init,
                0,
                0,
                start as int,
                end - start,
                start as int,
                end - start,
            );
        }
        let ghost c0 = self.next_counter();
        let ghost l0 = self.next_lamport();
        let ghost content1 = self.content@;
        let ghost ann0 = self.ann;
        let ghost styles0 = self.init_styles;
        let mut k: usize = 0;
        let ghost mut rec: Seq<Op> = Seq::empty();
        let ghost h0 = old(self).store.ops_of(old(self).store.client);
        proof {
            assert(deleted@.take(0) =~= Seq::<(OpID, usize)>::empty());
        }
        while k < deleted.len()
            invariant
                self.store.wf(),
                h0 == old(self).store.ops_of(old(self).store.client),
                recorded_seq(h0, self.store.ops_of(old(self).store.client), rec),
                forall|i: int|
                    0 <= i < rec.len() ==> (#[trigger] rec[i]).content is Del && rec[i].id.client
                        == old(self).store.client,
                0 <= k <= deleted@.len(),
                runs_len(deleted@) == end - start,
                forall|j: int| 0 <= j < deleted@.len() ==> run_ok(#[trigger] deleted@[j]),
                self.next_counter() == c0 + runs_len(deleted@.take(k as int)),
                self.next_lamport() == l0 + runs_len(deleted@.take(k as int)),
                c0 + (end - start) <= i32::MAX,
                l0 + (end - start) <= u32::MAX,
                self.store.client == old(self).store.client,
                forall|c: ClientID| c != old(self).store.client ==> #[trigger] self.store.ops_of(c)
                    == old(self).store.ops_of(c),
                self.content@ == content1,
                self.ann == ann0,
                self.init_styles == styles0,
            decreases deleted@.len() - k,
        {
            let (id, len) = deleted[k];
            proof {
                assert(run_ok(deleted@[k as int]));
                lemma_runs_prefix(deleted@, k as int);
            }
            let content = OpContent::new_delete(id, len as i32);
            let ghost hb = self.store.ops_of(self.store.client);
            let ghost opg = Op {
                id: OpID { client: self.store.client, counter: log_end(hb) as u32 },
                lamport: self.store.next_lamport,
                content,
            };
            self.store.insert_local(content);
            proof {
                let rec2 = rec.push(opg);
                assert(rec2.drop_last() =~= rec);
                assert(rec2.last() == opg);
                assert(recorded(hb, self.store.ops_of(old(self).store.client), opg));
                assert(recorded_seq(h0, self.store.ops_of(old(self).store.client), rec2));
                rec = rec2;
            }
            k = k + 1;
        }
        proof {
            assert(deleted@.take(k as int) =~= deleted@);
            assert(self.history(self.client()) == self.store.ops_of(old(self).store.client));
            assert(old(self).history(old(self).client()) == h0);
            assert(recorded_seq(old(self).history(old(self).client()), self.history(old(self).client()), rec)
                && forall|i: int|
                0 <= i < rec.len() ==> (#[trigger] rec[i]).content is Del && rec[i].id.client == old(self).client());
        }
    }
}

/// The end of the encoding of the first `j` characters is a character
/// boundary of the encoding.
pub proof fn lemma_encoded_prefix_boundary(c: Seq<char>, j: int)
    requires
        0 <= j <= c.len(),
    ensures
        is_char_boundary(encode_utf8(c), encode_utf8(c.take(j)).len() as int),
        encode_utf8(c.take(j)).len() <= encode_utf8(c).len(),
    decreases c.len(),
{
    encode_utf8_valid_utf8(c);
    if j == 0 {
        assert(c.take(0) =~= Seq::<char>::empty());
        assert(encode_utf8(Seq::<char>::empty()) =~= Seq::<u8>::empty());
    } else {
        let bytes = encode_utf8(c);
        encode_utf8_first_scalar(c);
        assert(pop_first_scalar(bytes) =~= encode_utf8(c.drop_first()));
        assert(c.take(j).drop_first() =~= c.drop_first().take(j - 1));
        assert(c.take(j)[0] == c[0]);
        lemma_encoded_prefix_boundary(c.drop_first(), j - 1);
        assert(encode_utf8(c.take(j)) == encode_scalar(c[0] as u32) + encode_utf8(c.take(j).drop_first()));
    }
}

/// The UTF-8 offset of a UTF-16 index is the length of the encoding of some
/// prefix of the characters.
pub proof fn lemma_offset_prefix(chars: Seq<char>, k: int) -> (j: int)
    ensures
        0 <= j <= chars.len(),
        utf8_offset_of_utf16(chars, k) == encode_utf8(chars.take(j)).len(),
    decreases chars.len(),
{
    if k <= 0 || chars.len() == 0 {
        assert(chars.take(0) =~= Seq::<char>::empty());
        assert(encode_utf8(Seq::<char>::empty()) =~= Seq::<u8>::empty());
        0
    } else {
        let j2 = lemma_offset_prefix(chars.drop_first(), k - crate::utf16::utf16_units(chars[0]));
        let j = j2 + 1;
        assert(chars.take(j).drop_first() =~= chars.drop_first().take(j2));
        assert(chars.take(j)[0] == chars[0]);
        assert(encode_utf8(chars.take(j)) == encode_scalar(chars[0] as u32) + encode_utf8(
            chars.take(j).drop_first(),
        ));
        j
    }
}

/// The UTF-8 offset of a UTF-16 index grows with the index.
pub proof fn lemma_offset_mono(chars: Seq<char>, k1: int, k2: int)
    requires
        k1 <= k2,
    ensures
        utf8_offset_of_utf16(chars, k1) <= utf8_offset_of_utf16(chars, k2),
    decreases chars.len(),
{
    if k1 > 0 && chars.len() > 0 {
        lemma_offset_mono(chars.drop_first(), k1 - crate::utf16::utf16_units(chars[0]), k2 - crate::utf16::utf16_units(chars[0]));
    }
}

/// The UTF-8 offset of a UTF-16 index of valid text is a character boundary
/// of the text.
pub proof fn lemma_offset_boundary(t: Seq<u8>, k: int)
    requires
        valid_utf8(t),
    ensures
        utf8_offset_of_utf16(text_of(t), k) <= t.len(),
        is_char_boundary(t, utf8_offset_of_utf16(text_of(t), k) as int),
{
    let c = text_of(t);
    decode_utf8_encode_utf8(t);
    let j = lemma_offset_prefix(c, k);
    lemma_encoded_prefix_boundary(c, j);
}

impl RichText {
    /// The visible text as bytes.
    fn text_bytes(&self) -> (v: Vec<u8>)
        requires
            self.wf(),
        ensures
            v@ == self.text(),
    {
        let ghost s = self.content@;
        let mut v: Vec<u8> = Vec::new();
        let mut i: usize = 0;
        proof {
            assert(s.take(0) =~= Seq::<Elem>::empty());
        }
        while i < self.content.len()
            invariant
                s == self.content@,
                0 <= i <= s.len(),
                v@ == text_of_elems(s.take(i as int)),
            decreases s.len() - i,
        {
            proof {
                lemma_text_split_at(s, i as int);
            }
            if !self.content[i].is_dead() {
                let b = bytes_as_slice(&self.content[i].string);
                v.extend_from_slice(b);
            }
            proof {
                assert(v@ =~= text_of_elems(s.take(i as int + 1)));
            }
            i = i + 1;
        }
        proof {
            assert(s.take(i as int) =~= s);
        }
        v
    }

    /// The visible text.
    pub fn to_string(&self) -> (r: String)
        requires
            self.wf(),
        ensures
            r@ == text_of(self.text()),
    {
        let v = self.text_bytes();
        proof {
            self.lemma_wf_text_valid();
        }
        let s = bytes_to_str(v.as_slice());
        s.to_owned()
    }

    /// The text of a well-formed document is valid UTF-8 and short enough
    /// for its measures to fit a `u32`.
    pub proof fn lemma_wf_text_valid(&self)
        requires
            self.wf(),
        ensures
            valid_utf8(self.text()),
            self.text().len() < u32::MAX,
            utf16_len_of(text_of(self.text())) <= self.text().len(),
            line_breaks_of(text_of(self.text())) <= self.text().len(),
    {
        let s = self.content@;
        assert forall|k: int| 0 <= k < s.len() implies (#[trigger] s[k]).wf() by {
            assert(elem_ok(s[k], self.ann.idx_to_ann.len() as int));
        }
        lemma_text_valid(s);
        lemma_utf16_le_bytes(self.text());
    }

    /// Length of the text in UTF-16 code units.
    pub fn len_utf16(&self) -> (n: usize)
        requires
            self.wf(),
        ensures
            n == utf16_len_of(text_of(self.text())),
    {
        let v = self.text_bytes();
        proof {
            self.lemma_wf_text_valid();
        }
        get_utf16_len_and_line_breaks(v.as_slice()).utf16 as usize
    }

    /// Length of the text in UTF-16 code units.
    pub fn utf16_len(&self) -> (n: usize)
        requires
            self.wf(),
        ensures
            n == utf16_len_of(text_of(self.text())),
    {
        self.len_utf16()
    }

    /// Number of lines: one more than the number of line breaks.
    pub fn lines(&self) -> (n: usize)
        requires
            self.wf(),
        ensures
            n == line_breaks_of(text_of(self.text())) + 1,
    {
        let v = self.text_bytes();
        proof {
            self.lemma_wf_text_valid();
        }
        get_utf16_len_and_line_breaks(v.as_slice()).line_breaks as usize + 1
    }

    /// Length of the text in the given unit.
    pub fn len_with(&self, index_type: IndexType) -> (n: usize)
        requires
            self.wf(),
        ensures
            n == match index_type {
                IndexType::Utf8 => self.text().len(),
                IndexType::Utf16 => utf16_len_of(text_of(self.text())),
            },
    {
        match index_type {
            IndexType::Utf8 => self.len(),
            IndexType::Utf16 => self.len_utf16(),
        }
    }

    /// Converts an index of the text from one unit to another. A UTF-8 index
    /// must fall on a character boundary; a UTF-16 index inside a surrogate
    /// pair counts the whole character.
    pub fn convert_index(&self, index: usize, from: IndexType, to: IndexType) -> (r: usize)
        requires
            self.wf(),
            from == IndexType::Utf8 ==> index <= self.text().len() && is_char_boundary(
                self.text(),
                index as int,
            ),
        ensures
            r == spec_convert_index(self.text(), index as int, from, to),
    {
        let v = self.text_bytes();
        proof {
            self.lemma_wf_text_valid();
        }
        let utf8 = match from {
            IndexType::Utf8 => index,
            IndexType::Utf16 => {
                proof {
                    lemma_offset_boundary(self.text(), index as int);
                }
                utf16_to_utf8(v.as_slice(), index)
            },
        };
        match to {
            IndexType::Utf8 => utf8,
            IndexType::Utf16 => {
                let ghost t = self.text();
                proof {
                    if from == IndexType::Utf16 {
                        lemma_offset_boundary(t, index as int);
                    }
                    crate::rich_tree::lemma_char_boundary_split(t, utf8 as int);
                    lemma_utf16_le_bytes(t.take(utf8 as int));
                }
                let prefix = prefix_of(v.as_slice(), utf8);
                get_utf16_len_and_line_breaks(prefix).utf16 as usize
            },
        }
    }
}

/// The first `n` bytes.
fn prefix_of(b: &[u8], n: usize) -> (r: &[u8])
    requires
        n <= b@.len(),
    ensures
        r@ == b@.take(n as int),
{
    let (head, _) = b.split_at(n);
    proof {
        assert(head@ =~= b@.take(n as int));
    }
    head
}

/// The index `index` of text `t`, counted in `from`, counted in `to`.
pub open spec fn spec_convert_index(t: Seq<u8>, index: int, from: IndexType, to: IndexType) -> int {
    let utf8 = match from {
        IndexType::Utf8 => index,
        IndexType::Utf16 => utf8_offset_of_utf16(text_of(t), index) as int,
    };
    match to {
        IndexType::Utf8 => utf8,
        IndexType::Utf16 => utf16_len_of(text_of(t.take(utf8))) as int,
    }
}

impl RichText {
    /// Inserts `string` at UTF-16 index `index` (a UTF-16 index inside a
    /// surrogate pair inserts after that character).
    pub fn insert_utf16(&mut self, index: usize, string: &str)
        requires
            old(self).wf(),
            index <= utf16_len_of(text_of(old(self).text())),
            old(self).text().len() + encode_utf8(string@).len() < u32::MAX,
            old(self).has_room(encode_utf8(string@).len() as int),
        ensures
            final(self).annotations() == old(self).annotations(),
            final(self).wf(),
            ({
                let t = old(self).text();
                let p = utf8_offset_of_utf16(text_of(t), index as int) as int;
                final(self).text() == t.take(p) + encode_utf8(string@) + t.skip(p)
            }),
            final(self).next_counter() == old(self).next_counter() + encode_utf8(string@).len(),
            final(self).next_lamport() == old(self).next_lamport() + encode_utf8(string@).len(),
            final(self).client() == old(self).client(),
            styles_kept(
                old(self).elems(),
                old(self).init_active(),
                final(self).elems(),
                final(self).init_active(),
                utf8_offset_of_utf16(text_of(old(self).text()), index as int) as int,
                encode_utf8(string@).len() as int,
            ),
    {
        proof {
            self.lemma_wf_text_valid();
            lemma_offset_boundary(self.text(), index as int);
        }
        let p = self.convert_index(index, IndexType::Utf16, IndexType::Utf8);
        self.insert(p, string);
    }

    /// Deletes the UTF-16 code units `start..end` of the text (an index inside
    /// a surrogate pair counts the whole character).
    pub fn delete_utf16(&mut self, start: usize, end: usize)
        requires
            old(self).wf(),
            start <= end <= utf16_len_of(text_of(old(self).text())),
            old(self).has_room(
                utf8_offset_of_utf16(text_of(old(self).text()), end as int) - utf8_offset_of_utf16(
                    text_of(old(self).text()),
                    start as int,
                ),
            ),
        ensures
            final(self).annotations() == old(self).annotations(),
            final(self).wf(),
            ({
                let t = old(self).text();
                let p1 = utf8_offset_of_utf16(text_of(t), start as int) as int;
                let p2 = utf8_offset_of_utf16(text_of(t), end as int) as int;
                &&& final(self).text() == t.take(p1) + t.skip(p2)
                &&& final(self).next_counter() == old(self).next_counter() + (p2 - p1)
                &&& final(self).next_lamport() == old(self).next_lamport() + (p2 - p1)
                &&& styles_kept(
                    final(self).elems(),
                    final(self).init_active(),
                    old(self).elems(),
                    old(self).init_active(),
                    p1,
                    p2 - p1,
                )
            }),
            final(self).client() == old(self).client(),
    {
        proof {
            self.lemma_wf_text_valid();
            lemma_offset_boundary(self.text(), start as int);
            lemma_offset_boundary(self.text(), end as int);
            lemma_offset_mono(text_of(self.text()), start as int, end as int);
        }
        let p1 = self.convert_index(start, IndexType::Utf16, IndexType::Utf8);
        let p2 = self.convert_index(end, IndexType::Utf16, IndexType::Utf8);
        self.delete(p1, p2);
    }
}

/// Where the element that receives an anchor is cut: a before-anchor of
/// the character at `offset` goes on the element starting there, an
/// after-anchor on the element ending right after it. Answers the length of
/// the part that keeps the element's place, `len` when no cut is needed.
pub open spec fn anchor_cut(len: int, offset: int, type_: AnchorType) -> int {
    match type_ {
        AnchorType::Before => if offset == 0 {
            len
        } else {
            offset
        },
        AnchorType::After => offset + 1,
    }
}

/// Element `k` is the first holding atom `id`, and the atom starts a
/// character (a before-anchor) or ends one (an after-anchor) there.
pub open spec fn anchor_char_at(s: Seq<Elem>, k: int, id: OpID, type_: AnchorType) -> bool {
    &&& 0 <= k < s.len()
    &&& s[k].spec_contains_id(id)
    &&& forall|k2: int| 0 <= k2 < k ==> !(#[trigger] s[k2]).spec_contains_id(id)
    &&& is_char_boundary(
        s[k].bytes(),
        anchor_cut(s[k].bytes().len() as int, id.counter - s[k].id.counter, type_),
    )
}

/// The character that an anchor on atom `id` names is in the elements.
pub open spec fn anchor_char_present(s: Seq<Elem>, id: OpID, type_: AnchorType) -> bool {
    exists|k: int| #[trigger] anchor_char_at(s, k, id, type_)
}

/// Whether the anchor type is before its character.
pub open spec fn is_before(t: AnchorType) -> bool {
    t == AnchorType::Before
}

/// Annotation `idx` has an anchor of the given kind on the element that
/// starts with atom `id` (a before-anchor) or ends with it (an
/// after-anchor).
pub open spec fn anchored(s: Seq<Elem>, idx: i32, is_start: bool, type_: AnchorType, id: OpID) -> bool {
    exists|j: int|
        0 <= j < s.len() && #[trigger] anchor_in(s[j], idx, is_start, is_before(type_))
            && s[j].id.client == id.client && (type_ == AnchorType::Before ==> s[j].id == id) && (type_
            == AnchorType::After ==> s[j].id.counter + s[j].bytes().len() == id.counter + 1)
}

/// Attaches an anchor of annotation `ann` to the character at byte `offset`
/// of element `index`: before it (cutting the element there when the
/// character is not its first) or after it (cutting the element after the
/// character when it is not its last).
#[verifier::spinoff_prover]
#[verifier::rlimit(80)]
pub fn insert_anchor_to_char(
    elements: &mut Vec<Elem>,
    index: usize,
    offset: usize,
    ann: AnnIdx,
    type_: AnchorType,
    is_start: bool,
    Ghost(n_ann): Ghost<int>,
)
    requires
        elems_ok(old(elements)@, n_ann),
        index < old(elements)@.len(),
        offset < old(elements)@[index as int].bytes().len(),
        0 < ann < n_ann,
        is_char_boundary(
            old(elements)@[index as int].bytes(),
            anchor_cut(old(elements)@[index as int].bytes().len() as int, offset as int, type_),
        ),
    ensures
        elems_ok(final(elements)@, n_ann),
        text_of_elems(final(elements)@) == text_of_elems(old(elements)@),
        final(elements)@.take(index as int) == old(elements)@.take(index as int),
        index < final(elements)@.len(),
        ({
            let e = old(elements)@[index as int];
            let f = final(elements)@[index as int];
            let k = anchor_cut(e.bytes().len() as int, offset as int, type_);
            &&& f.bytes() == e.bytes().take(k)
            &&& f.id == e.id
            &&& f.status == e.status
        }),
        forall|st: bool, bf: bool, r: int|
            #![trigger anchor_on(final(elements)@, ann, st, bf, r)]
            !(st == is_start && bf == (type_ == AnchorType::Before)) && anchor_on(old(elements)@, ann, st, bf, r)
                ==> anchor_on(final(elements)@, ann, st, bf, r),
        forall|st: bool, bf: bool|
            #![trigger anchor_none(final(elements)@, ann, st, bf)]
            !(st == is_start && bf == (type_ == AnchorType::Before)) && anchor_none(old(elements)@, ann, st, bf)
                ==> anchor_none(final(elements)@, ann, st, bf),
        forall|init: Set<i32>| #[trigger] same_active_but(old(elements)@, init, final(elements)@, init, ann),
        final(elements)@.len() <= old(elements)@.len() + 1,
        recut(old(elements)@, final(elements)@, index as int),
        ({
            let e = old(elements)@[index as int];
            let j = if type_ == AnchorType::Before && offset > 0 { index + 1 } else { index as int };
            let t = crate::rich_tree::id_at(e.id, offset as int);
            &&& j < final(elements)@.len()
            &&& anchor_in(final(elements)@[j], ann, is_start, type_ == AnchorType::Before)
            &&& final(elements)@[j].id.client == t.client
            &&& final(elements)@[j].status == e.status
            &&& type_ == AnchorType::Before ==> final(elements)@[j].id == t
            &&& type_ == AnchorType::After ==> final(elements)@[j].id.counter + final(elements)@[j].bytes().len()
                == t.counter + 1
        }),
        anchor_none(old(elements)@, ann, is_start, type_ == AnchorType::Before)
            && !old(elements)@[index as int].status.spec_is_dead() ==> anchor_on(
            final(elements)@,
            ann,
            is_start,
            type_ == AnchorType::Before,
            elems_prefix(old(elements)@, index as int) + offset,
        ),
{
    let ghost old_s = elements@;
    let ghost e0 = old_s[index as int];
    proof {
        assert(elem_ok(e0, n_ann));
    }
    let len = elements[index].atom_len();
    match type_ {
        AnchorType::Before => {
            if offset == 0 {
                let mut e = elements.remove(index);
                e.anchor_set.insert_ann(ann, type_, is_start);
                elements.insert(index, e);
                proof {
                    assert(elements@ =~= old_s.take(index as int) + seq![e] + old_s.skip(index as int + 1));
                    assert(elem_ok(e, n_ann));
                    assert(elems_ok(seq![e], n_ann));
                    lemma_replace_ok(old_s, index as int, seq![e], n_ann);
                    lemma_replace_one(old_s, index as int, seq![e]);
                    lemma_text_single(e);
                    assert(old_s =~= old_s.take(index as int) + seq![e0] + old_s.skip(index as int + 1));
                    assert(e.bytes() =~= e0.bytes().take(len as int));
                    assert(e.bytes() =~= e0.bytes());
                    assert(e.anchor_set.start_before@.remove(ann) =~= e0.anchor_set.start_before@.remove(ann));
                    assert(e.anchor_set.end_before@.remove(ann) =~= e0.anchor_set.end_before@.remove(ann));
                    assert(e.anchor_set.start_after@.remove(ann) =~= e0.anchor_set.start_after@.remove(ann));
                    assert(e.anchor_set.end_after@.remove(ann) =~= e0.anchor_set.end_after@.remove(ann));
                    anchor_replace_step(old_s, elements@, index as int, ann, is_start, true, offset as int);
                }
            } else {
                let mut e = elements.remove(index);
                let mut new_elem = e.split(offset);
                new_elem.anchor_set.insert_ann(ann, type_, is_start);
                elements.insert(index, e);
                let n = elements.len();
                assert(index < n);
                elements.insert(index + 1, new_elem);
                proof {
                    assert(e0.bytes() =~= e.bytes() + new_elem.bytes());
                    split_anchor_facts(old_s, index as int, e, new_elem, n_ann);
                    assert(elements@ =~= old_s.take(index as int) + seq![e, new_elem] + old_s.skip(
                        index as int + 1,
                    ));
                    assert(e.anchor_set.start_before@.remove(ann) =~= e0.anchor_set.start_before@.remove(ann));
                    assert(e.anchor_set.end_before@.remove(ann) =~= e0.anchor_set.end_before@.remove(ann));
                    assert(e.anchor_set.start_after@.remove(ann) =~= Set::<i32>::empty());
                    assert(e.anchor_set.end_after@.remove(ann) =~= Set::<i32>::empty());
                    assert(new_elem.anchor_set.start_before@.remove(ann) =~= Set::<i32>::empty());
                    assert(new_elem.anchor_set.end_before@.remove(ann) =~= Set::<i32>::empty());
                    assert(new_elem.anchor_set.start_after@.remove(ann) =~= e0.anchor_set.start_after@.remove(ann));
                    assert(new_elem.anchor_set.end_after@.remove(ann) =~= e0.anchor_set.end_after@.remove(ann));
                    anchor_split_step(old_s, elements@, index as int, ann, is_start, true, offset as int);
                }
            }
        },
        AnchorType::After => {
            if offset == len - 1 {
                let mut e = elements.remove(index);
                e.anchor_set.insert_ann(ann, type_, is_start);
                elements.insert(index, e);
                proof {
                    assert(elements@ =~= old_s.take(index as int) + seq![e] + old_s.skip(index as int + 1));
                    assert(elem_ok(e, n_ann));
                    assert(elems_ok(seq![e], n_ann));
                    lemma_replace_ok(old_s, index as int, seq![e], n_ann);
                    lemma_replace_one(old_s, index as int, seq![e]);
                    lemma_text_single(e);
                    assert(e.bytes() =~= e0.bytes().take(len as int));
                    assert(e.bytes() =~= e0.bytes());
                    assert(e.anchor_set.start_before@.remove(ann) =~= e0.anchor_set.start_before@.remove(ann));
                    assert(e.anchor_set.end_before@.remove(ann) =~= e0.anchor_set.end_before@.remove(ann));
                    assert(e.anchor_set.start_after@.remove(ann) =~= e0.anchor_set.start_after@.remove(ann));
                    assert(e.anchor_set.end_after@.remove(ann) =~= e0.anchor_set.end_after@.remove(ann));
                    anchor_replace_step(old_s, elements@, index as int, ann, is_start, false, offset as int);
                }
            } else {
                let mut e = elements.remove(index);
                let new_elem = e.split(offset + 1);
                e.anchor_set.insert_ann(ann, type_, is_start);
                elements.insert(index, e);
                let n = elements.len();
                assert(index < n);
                elements.insert(index + 1, new_elem);
                proof {
                    assert(e0.bytes() =~= e.bytes() + new_elem.bytes());
                    split_anchor_facts(old_s, index as int, e, new_elem, n_ann);
                    assert(elements@ =~= old_s.take(index as int) + seq![e, new_elem] + old_s.skip(
                        index as int + 1,
                    ));
                    assert(e.anchor_set.start_before@.remove(ann) =~= e0.anchor_set.start_before@.remove(ann));
                    assert(e.anchor_set.end_before@.remove(ann) =~= e0.anchor_set.end_before@.remove(ann));
                    assert(e.anchor_set.start_after@.remove(ann) =~= Set::<i32>::empty());
                    assert(e.anchor_set.end_after@.remove(ann) =~= Set::<i32>::empty());
                    assert(new_elem.anchor_set.start_before@.remove(ann) =~= Set::<i32>::empty());
                    assert(new_elem.anchor_set.end_before@.remove(ann) =~= Set::<i32>::empty());
                    assert(new_elem.anchor_set.start_after@.remove(ann) =~= e0.anchor_set.start_after@.remove(ann));
                    assert(new_elem.anchor_set.end_after@.remove(ann) =~= e0.anchor_set.end_after@.remove(ann));
                    anchor_split_step(old_s, elements@, index as int, ann, is_start, false, offset as int);
                }
            }
        },
    }
    proof {
        assert(recut(old_s, elements@, index as int)) by {
            reveal(recut);
        }
    }
}

/// The anchors of annotation `x` after it was added, with kind
/// (`is_start`, `before`), to element `i` kept whole (see
/// [`lemma_anchors_replace`]).
proof fn anchor_replace_step(a: Seq<Elem>, b: Seq<Elem>, i: int, x: i32, is_start: bool, before: bool, offset: int)
    requires
        0 <= i < a.len(),
        b == a.take(i) + seq![b[i]] + a.skip(i + 1),
        b[i].bytes() == a[i].bytes(),
        b[i].status == a[i].status,
        forall|st: bool, bf: bool|
            !(st == is_start && bf == before) ==> #[trigger] anchor_in(b[i], x, st, bf) == anchor_in(a[i], x, st, bf),
        anchor_in(b[i], x, is_start, before),
        a[i].bytes().len() > 0,
        0 <= offset < a[i].bytes().len(),
        before ==> offset == 0,
        !before ==> offset == a[i].bytes().len() - 1,
        forall|j: int| 0 <= j < a.len() ==> (#[trigger] a[j]).wf(),
        forall|j: int| 0 <= j < b.len() ==> (#[trigger] b[j]).wf(),
        crate::anchors::sets_agree(a[i], b[i], x),
    ensures
        forall|init: Set<i32>| #[trigger] same_active_but(a, init, b, init, x),
        forall|st: bool, bf: bool, r: int|
            #![trigger anchor_on(b, x, st, bf, r)]
            !(st == is_start && bf == before) && anchor_on(a, x, st, bf, r) ==> anchor_on(b, x, st, bf, r),
        forall|st: bool, bf: bool|
            #![trigger anchor_none(b, x, st, bf)]
            !(st == is_start && bf == before) && anchor_none(a, x, st, bf) ==> anchor_none(b, x, st, bf),
        anchor_none(a, x, is_start, before) && !a[i].status.spec_is_dead() ==> anchor_on(
            b,
            x,
            is_start,
            before,
            elems_prefix(a, i) + offset,
        ),
{
    crate::anchors::lemma_prefix_step(a, i);
    lemma_anchors_replace(a, b, i, x, is_start, before, elems_prefix(a, i) + offset);
    assert forall|init: Set<i32>| #[trigger] same_active_but(a, init, b, init, x) by {
        crate::anchors::lemma_same_active_replace(a, b, i, x, init);
    }
}

/// The anchors of annotation `x` after element `i` was split and it was
/// added, with kind (`is_start`, `before`), next to the cut: on the right
/// part when `before`, on the left part otherwise (see
/// [`lemma_anchors_split`]).
proof fn anchor_split_step(a: Seq<Elem>, b: Seq<Elem>, i: int, x: i32, is_start: bool, before: bool, offset: int)
    requires
        0 <= i < a.len(),
        b == a.take(i) + seq![b[i], b[i + 1]] + a.skip(i + 1),
        a[i].bytes() == b[i].bytes() + b[i + 1].bytes(),
        b[i].bytes().len() > 0,
        b[i + 1].bytes().len() > 0,
        b[i].status == a[i].status,
        b[i + 1].status == a[i].status,
        forall|st: bool, bf: bool|
            !(st == is_start && bf == before) ==> (#[trigger] anchor_in(b[i], x, st, bf) == (bf && anchor_in(
                a[i],
                x,
                st,
                bf,
            ))),
        forall|st: bool, bf: bool|
            !(st == is_start && bf == before) ==> (#[trigger] anchor_in(b[i + 1], x, st, bf) == (!bf
                && anchor_in(a[i], x, st, bf))),
        before ==> anchor_in(b[i + 1], x, is_start, before) && anchor_in(b[i], x, is_start, before)
            == anchor_in(a[i], x, is_start, before) && offset == b[i].bytes().len(),
        !before ==> anchor_in(b[i], x, is_start, before) && anchor_in(b[i + 1], x, is_start, before)
            == anchor_in(a[i], x, is_start, before) && offset + 1 == b[i].bytes().len(),
        forall|j: int| 0 <= j < a.len() ==> (#[trigger] a[j]).wf(),
        forall|j: int| 0 <= j < b.len() ==> (#[trigger] b[j]).wf(),
        b[i].anchor_set.start_before@.remove(x) == a[i].anchor_set.start_before@.remove(x),
        b[i].anchor_set.end_before@.remove(x) == a[i].anchor_set.end_before@.remove(x),
        b[i].anchor_set.start_after@.remove(x) == Set::<i32>::empty(),
        b[i].anchor_set.end_after@.remove(x) == Set::<i32>::empty(),
        b[i + 1].anchor_set.start_before@.remove(x) == Set::<i32>::empty(),
        b[i + 1].anchor_set.end_before@.remove(x) == Set::<i32>::empty(),
        b[i + 1].anchor_set.start_after@.remove(x) == a[i].anchor_set.start_after@.remove(x),
        b[i + 1].anchor_set.end_after@.remove(x) == a[i].anchor_set.end_after@.remove(x),
    ensures
        forall|init: Set<i32>| #[trigger] same_active_but(a, init, b, init, x),
        forall|st: bool, bf: bool, r: int|
            #![trigger anchor_on(b, x, st, bf, r)]
            !(st == is_start && bf == before) && anchor_on(a, x, st, bf, r) ==> anchor_on(b, x, st, bf, r),
        forall|st: bool, bf: bool|
            #![trigger anchor_none(b, x, st, bf)]
            !(st == is_start && bf == before) && anchor_none(a, x, st, bf) ==> anchor_none(b, x, st, bf),
        anchor_none(a, x, is_start, before) && !a[i].status.spec_is_dead() ==> anchor_on(
            b,
            x,
            is_start,
            before,
            elems_prefix(a, i) + offset,
        ),
{
    if a[i].status.spec_is_dead() {
        assert(b[i].visible() + b[i + 1].visible() =~= a[i].visible());
    }
    if anchor_none(a, x, is_start, before) {
        assert(!anchor_in(a[i], x, is_start, before));
    }
    lemma_anchors_split(a, b, i, x, is_start, before, elems_prefix(a, i) + offset);
    assert forall|init: Set<i32>| #[trigger] same_active_but(a, init, b, init, x) by {
        crate::anchors::lemma_same_active_split(a, b, i, x, init);
    }
}

/// Element `i` of `old_s` split into `l` and `r`, which partition its bytes,
/// share its status and keep registered anchors.
proof fn split_anchor_facts(old_s: Seq<Elem>, i: int, l: Elem, r: Elem, n_ann: int)
    requires
        0 <= i < old_s.len(),
        elems_ok(old_s, n_ann),
        elem_ok(l, n_ann),
        elem_ok(r, n_ann),
        l.status == old_s[i].status,
        r.status == old_s[i].status,
        old_s[i].bytes() == l.bytes() + r.bytes(),
    ensures
        elems_ok(old_s.take(i) + seq![l, r] + old_s.skip(i + 1), n_ann),
        text_of_elems(old_s.take(i) + seq![l, r] + old_s.skip(i + 1)) == text_of_elems(old_s),
{
    assert(elems_ok(seq![l, r], n_ann));
    lemma_replace_ok(old_s, i, seq![l, r], n_ann);
    lemma_replace_one(old_s, i, seq![l, r]);
    lemma_text_two_three(l, r, r);
    if old_s[i].status.spec_is_dead() {
        assert(l.visible() + r.visible() =~= Seq::<u8>::empty());
    }
}

/// The id of the atom that holds text byte `pos`.
pub open spec fn atom_id_at(s: Seq<Elem>, pos: int) -> OpID
    decreases s.len(),
{
    if s.len() == 0 {
        OpID { client: 0, counter: 0 }
    } else if pos < s[0].visible().len() {
        id_at(s[0].id, pos)
    } else {
        atom_id_at(s.drop_first(), pos - s[0].visible().len())
    }
}

/// The element and offset found for a text byte hold the atom of that byte.
pub proof fn lemma_atom_id_at(s: Seq<Elem>, i: int, o: int)
    requires
        0 <= i < s.len(),
        !s[i].status.spec_is_dead(),
        0 <= o < s[i].bytes().len(),
    ensures
        atom_id_at(s, text_of_elems(s.take(i)).len() + o) == id_at(s[i].id, o),
    decreases i,
{
    if i == 0 {
        assert(s.take(0) =~= Seq::<Elem>::empty());
    } else {
        let r = s.drop_first();
        assert(s.take(i) =~= seq![s[0]] + r.take(i - 1));
        lemma_text_concat(seq![s[0]], r.take(i - 1));
        lemma_text_single(s[0]);
        lemma_atom_id_at(r, i - 1, o);
        assert(r[i - 1] == s[i]);
    }
}

/// `after` is `before` with the bytes `start..end` given `style`: the text
/// and the other peers' histories are unchanged; an empty range changes
/// nothing; otherwise one local operation, recorded in the history, registers
/// the annotation (the first registration also fills
/// the unused slot 0), with the operation's id and lamport, anchored as
/// [`anchor_id`] says, with the style's behaviour, type and value, and
/// active on exactly the bytes `start..end`: on each byte the annotations
/// active before, plus the new one inside the range.
pub open spec fn annotated(before: RichText, after: RichText, start: int, end: int, style: Style) -> bool {
    &&& after.text() == before.text()
    &&& after.client() == before.client()
    &&& start == end ==> after == before
    &&& forall|c: ClientID| c != before.client() ==> #[trigger] after.history(c) == before.history(c)
    &&& start < end ==> {
        let s = before.elems();
        let id = OpID { client: before.client(), counter: before.next_counter() as u32 };
        let a = *after.annotations().last();
        &&& after.next_counter() == before.next_counter() + 1
        &&& after.next_lamport() == before.next_lamport() + 1
        &&& after.annotations() == if before.annotations().len() == 0 {
            seq![after.annotations().last(), after.annotations().last()]
        } else {
            before.annotations().push(after.annotations().last())
        }
        &&& a.id == id
        &&& recorded(
            before.history(before.client()),
            after.history(before.client()),
            Op { id, lamport: before.next_lamport() as u32, content: OpContent::Ann(after.annotations().last()) },
        )
        &&& a.range_lamport == (before.next_lamport() as u32, id)
        &&& a.range.start == (Anchor {
            id: anchor_id(s, start, style.start_type, true),
            type_: style.start_type,
        })
        &&& a.range.end == (Anchor { id: anchor_id(s, end, style.end_type, false), type_: style.end_type })
        &&& a.behavior == style.behavior
        &&& a.type_@ == style.type_@
        &&& a.value == style.value
        &&& forall|k: int, p: int|
            #![trigger holds_position(after.elems(), k, p)]
            0 <= k < after.elems().len() && 0 <= p && holds_position(after.elems(), k, p) ==> (active_at(
                after.elems(),
                after.init_active(),
                k,
            ).contains((after.annotations().len() - 1) as i32) <==> start <= p < end)
        &&& forall|ka: int, kb: int, p: int|
            #![trigger holds_position(before.elems(), ka, p), holds_position(after.elems(), kb, p)]
            0 <= p && ka < before.elems().len() && kb < after.elems().len() && holds_position(
                before.elems(),
                ka,
                p,
            ) && holds_position(after.elems(), kb, p) ==> active_at(after.elems(), after.init_active(), kb)
                == if start <= p < end {
                active_at(before.elems(), before.init_active(), ka).insert(
                    (after.annotations().len() - 1) as i32,
                )
            } else {
                active_at(before.elems(), before.init_active(), ka)
            }
    }
}

/// Annotation `x` of `t` is active on exactly the text bytes
/// `start..end`.
pub open spec fn active_exactly(t: RichText, x: i32, start: int, end: int) -> bool {
    forall|k: int, p: int|
        #![trigger holds_position(t.elems(), k, p)]
        0 <= k < t.elems().len() && 0 <= p && holds_position(t.elems(), k, p) ==> (active_at(
            t.elems(),
            t.init_active(),
            k,
        ).contains(x) <==> start <= p < end)
}

/// Adding an annotation leaves each earlier one active where it was.
pub proof fn lemma_annotated_keeps(
    before: RichText,
    after: RichText,
    start: int,
    end: int,
    style: Style,
    x: i32,
    s: int,
    e: int,
)
    requires
        before.wf(),
        after.wf(),
        annotated(before, after, start, end, style),
        start <= end,
        0 <= x < before.annotations().len(),
        active_exactly(before, x, s, e),
    ensures
        active_exactly(after, x, s, e),
{
    if start < end {
        let sa = after.content@;
        let sb = before.content@;
        assert(after.annotations().len() == before.annotations().len() + 1);
        assert forall|kb: int, p: int|
            #![trigger holds_position(sa, kb, p)]
            0 <= kb < sa.len() && 0 <= p && holds_position(sa, kb, p) implies (active_at(
                sa,
                after.init_styles.inner@,
                kb,
            ).contains(x) <==> s <= p < e) by {
            lemma_prefix_len_mono(sa, kb + 1, sa.len() as int);
            assert(sa.take(sa.len() as int) =~= sa);
            assert forall|i: int| 0 <= i < sb.len() implies (#[trigger] sb[i]).wf() by {
                assert(elem_ok(sb[i], before.ann.idx_to_ann.len() as int));
            }
            let ka = crate::anchors::lemma_holder_exists(sb, p);
            assert(holds_position(before.elems(), ka, p));
            assert(holds_position(after.elems(), kb, p));
            assert(active_at(sb, before.init_styles.inner@, ka).contains(x) <==> s <= p < e);
            assert(x != (after.annotations().len() - 1) as i32);
        }
        assert(active_exactly(after, x, s, e));
    }
}

/// The id of the atom that an anchor of the given side refers to, for a
/// range that starts (or, with `is_start` false, ends) at text index `at`:
/// a before-anchor names the character at `at`, an after-anchor the
/// character ending at `at`; `None` stands for the document's start or end.
pub open spec fn anchor_id(s: Seq<Elem>, at: int, type_: AnchorType, is_start: bool) -> Option<OpID> {
    let len = text_of_elems(s).len();
    if is_start {
        match type_ {
            AnchorType::Before => Some(atom_id_at(s, at)),
            AnchorType::After => if at == 0 {
                None
            } else {
                Some(atom_id_at(s, at - 1))
            },
        }
    } else {
        match type_ {
            AnchorType::Before => if at >= len {
                None
            } else {
                Some(atom_id_at(s, at))
            },
            AnchorType::After => Some(atom_id_at(s, at - 1)),
        }
    }
}

impl RichText {
    /// The registered annotations; index `i > 0` is the `i`-th.
    pub closed spec fn annotations(&self) -> Seq<Arc<Annotation>> {
        self.ann.idx_to_ann@
    }

    /// The element and offset of text byte `p`, with the facts that anchoring
    /// at it needs.
    #[verifier::rlimit(60)]
    #[verifier::spinoff_prover]
    fn cursor_of(&self, p: usize, type_: AnchorType) -> (r: (usize, usize))
        requires
            self.wf(),
            p < self.text().len(),
            match type_ {
                AnchorType::Before => is_char_boundary(self.text(), p as int),
                AnchorType::After => is_char_boundary(self.text(), p + 1),
            },
        ensures
            r.0 < self.content@.len(),
            !self.content@[r.0 as int].status.spec_is_dead(),
            r.1 < self.content@[r.0 as int].bytes().len(),
            text_of_elems(self.content@.take(r.0 as int)).len() + r.1 == p,
            atom_id_at(self.content@, p as int) == id_at(self.content@[r.0 as int].id, r.1 as int),
            is_char_boundary(
                self.content@[r.0 as int].bytes(),
                anchor_cut(self.content@[r.0 as int].bytes().len() as int, r.1 as int, type_),
            ),
    {
        let (i, o) = self.locate(p);
        proof {
            let s = self.content@;
            lemma_atom_id_at(s, i as int, o as int);
            self.lemma_wf_text_valid();
            assert(elem_ok(s[i as int], self.ann.idx_to_ann.len() as int));
            lemma_text_split_at(s, i as int);
            lemma_text_concat(s.take(i as int + 1), s.skip(i as int + 1));
            assert(s =~= s.take(i as int + 1) + s.skip(i as int + 1));
            let t = self.text();
            let bs = s[i as int].bytes();
            let pos = text_of_elems(s.take(i as int)).len() as int;
            assert(bs =~= t.subrange(pos, pos + bs.len()));
            let cut = anchor_cut(bs.len() as int, o as int, type_);
            if 0 < cut < bs.len() {
                lemma_window_boundary(t, pos, bs, cut);
            } else {
                is_char_boundary_start_end_of_seq(bs);
            }
        }
        (i, o)
    }

    /// Annotates the text bytes `start..end` with `style`; an `end` past the
    /// text stands for the text's end. An empty range does nothing.
    pub fn annotate(&mut self, start: usize, end: usize, style: Style)
        requires
            old(self).wf(),
            start <= end,
            start < end ==> start < old(self).text().len(),
            start < end ==> is_char_boundary(old(self).text(), start as int),
            start < end && end <= old(self).text().len() ==> is_char_boundary(old(self).text(), end as int),
            old(self).has_room(1),
            old(self).annotations().len() + 3 < i32::MAX,
        ensures
            final(self).wf(),
            annotated(
                *old(self),
                *final(self),
                start as int,
                if end > old(self).text().len() {
                    old(self).text().len() as int
                } else {
                    end as int
                },
                style,
            ),
    {
        if end <= start {
            return;
        }
        let len = self.len();
        let end = if end > len {
            proof {
                self.lemma_wf_text_valid();
                is_char_boundary_start_end_of_seq(self.text());
            }
            len
        } else {
            end
        };
        self.annotate_in(start, end, style);
    }

    /// Annotates the text bytes `start..end` with `style`: registers the
    /// annotation, attaches its anchors to the characters at the range's
    /// ends (on the sides the style asks for) and records the operation.
    /// An empty range does nothing.
    #[verifier::rlimit(100)]
    #[verifier::spinoff_prover]
    fn annotate_in(&mut self, start: usize, end: usize, style: Style)
        requires
            old(self).wf(),
            start <= end <= old(self).text().len(),
            is_char_boundary(old(self).text(), start as int),
            is_char_boundary(old(self).text(), end as int),
            old(self).has_room(1),
            old(self).annotations().len() + 3 < i32::MAX,
        ensures
            final(self).wf(),
            annotated(*old(self), *final(self), start as int, end as int, style),
    {
        if end <= start {
            return;
        }
        let ghost s0 = self.content@;
        let len = self.len();
        proof {
            self.lemma_wf_text_valid();
        }
        let start_cursor: Option<(usize, usize)> = match style.start_type {
            AnchorType::Before => Some(self.cursor_of(start, AnchorType::Before)),
            AnchorType::After => if start == 0 {
                None
            } else {
                Some(self.cursor_of(start - 1, AnchorType::After))
            },
        };
        let end_cursor: Option<(usize, usize)> = match style.end_type {
            AnchorType::Before => if end >= len {
                None
            } else {
                Some(self.cursor_of(end, AnchorType::Before))
            },
            AnchorType::After => Some(self.cursor_of(end - 1, AnchorType::After)),
        };
        let start_id: Option<OpID> = match start_cursor {
            Some(c) => Some(self.content[c.0].id.inc(c.1 as u32)),
            None => None,
        };
        let end_id: Option<OpID> = match end_cursor {
            Some(c) => Some(self.content[c.0].id.inc(c.1 as u32)),
            None => None,
        };
        proof {
            if let Some(c) = start_cursor {
                assert(elem_ok(s0[c.0 as int], self.ann.idx_to_ann.len() as int));
            }
            if let Some(c) = end_cursor {
                assert(elem_ok(s0[c.0 as int], self.ann.idx_to_ann.len() as int));
            }
        }
        let id = self.store.next_id();
        let lamport = self.store.next_lamport();
        let ann = Annotation {
            id,
            range_lamport: (lamport, id),
            range: AnchorRange {
                start: Anchor { id: start_id, type_: style.start_type },
                end: Anchor { id: end_id, type_: style.end_type },
            },
            behavior: style.behavior,
            type_: style.type_,
            value: style.value,
        };
        let ann = Arc::new(ann);
        let ghost n_old = self.ann.idx_to_ann.len() as int;
        let ghost init0 = self.init_styles.inner@;
        let ann_idx = self.ann.register(arc_ann_clone(&ann));
        let ghost n_ann = self.ann.idx_to_ann.len() as int;
        proof {
            assert forall|k: int| 0 <= k < s0.len() implies elem_ok(#[trigger] s0[k], n_ann) by {
                assert(elem_ok(s0[k], n_ann - 1) || elem_ok(s0[k], n_ann - 2));
            }
            assert forall|st: bool, bf: bool| #[trigger] anchor_none(s0, ann_idx, st, bf) by {
                assert forall|j: int| 0 <= j < s0.len() implies !#[trigger] anchor_in(s0[j], ann_idx, st, bf) by {
                    assert(elem_ok(s0[j], n_old));
                }
            }
            assert(!init0.contains(ann_idx));
        }
        match (start_cursor, end_cursor) {
            (Some(sc), Some(ec)) => {
                proof {
                    assert(anchor_none(s0, ann_idx, false, style.end_type == AnchorType::Before));
                }
                insert_anchor_to_char(
                    &mut self.content,
                    ec.0,
                    ec.1,
                    ann_idx,
                    style.end_type,
                    false,
                    Ghost(n_ann),
                );
                proof {
                    let s1 = self.content@;
                    let b = s0[ec.0 as int].bytes();
                    let k = anchor_cut(b.len() as int, ec.1 as int, style.end_type);
                    lemma_cursor_le(s0, sc.0 as int, sc.1 as int, ec.0 as int, ec.1 as int);
                    if sc.0 < ec.0 {
                        assert(s1[sc.0 as int] == s1.take(ec.0 as int)[sc.0 as int]);
                        assert(s0[sc.0 as int] == s0.take(ec.0 as int)[sc.0 as int]);
                    } else {
                        let base = text_of_elems(s0.take(sc.0 as int)).len() as int;
                        lemma_cursor_order(b.len() as int, sc.1 as int, ec.1 as int, style.start_type, style.end_type, start as int, end as int, base);
                        assert(elem_ok(s0[ec.0 as int], n_ann));
                        crate::rich_tree::lemma_char_boundary_split(b, k);
                        if sc.1 == 0 && style.start_type == AnchorType::Before {
                            is_char_boundary_start_end_of_seq(b.take(k));
                        } else {
                            let cs = anchor_cut(b.len() as int, sc.1 as int, style.start_type);
                            crate::rich_tree::lemma_char_boundary_prefix(b, k, cs);
                        }
                    }
                }
                let ghost s1 = self.content@;
                proof {
                    assert(anchor_none(s0, ann_idx, true, style.start_type == AnchorType::Before));
                    assert(anchor_none(s1, ann_idx, true, style.start_type == AnchorType::Before));
                    assert(anchor_none(s1, ann_idx, false, style.end_type != AnchorType::Before));
                    assert(anchor_none(s1, ann_idx, true, style.start_type != AnchorType::Before));
                    lemma_cursor_le(s0, sc.0 as int, sc.1 as int, ec.0 as int, ec.1 as int);
                    assert(s1.take(sc.0 as int) =~= s0.take(sc.0 as int)) by {
                        assert(s1.take(sc.0 as int) =~= s1.take(ec.0 as int).take(sc.0 as int));
                        assert(s0.take(sc.0 as int) =~= s0.take(ec.0 as int).take(sc.0 as int));
                    }
                }
                insert_anchor_to_char(
                    &mut self.content,
                    sc.0,
                    sc.1,
                    ann_idx,
                    style.start_type,
                    true,
                    Ghost(n_ann),
                );
                proof {
                    let s2 = self.content@;
                    assert(anchor_none(s2, ann_idx, false, style.end_type != AnchorType::Before));
                    assert(anchor_none(s2, ann_idx, true, style.start_type != AnchorType::Before));
                    assert(same_active_but(s0, init0, s1, init0, ann_idx));
                    assert(same_active_but(s1, init0, s2, init0, ann_idx));
                    assert forall|j: int| 0 <= j < s1.len() implies (#[trigger] s1[j]).wf() by {
                        assert(elem_ok(s1[j], n_ann));
                    }
                    crate::anchors::lemma_same_active_trans(s0, init0, s1, init0, s2, init0, ann_idx);
                }
            },
            (Some(sc), None) => {
                insert_anchor_to_char(
                    &mut self.content,
                    sc.0,
                    sc.1,
                    ann_idx,
                    style.start_type,
                    true,
                    Ghost(n_ann),
                );
            },
            (None, Some(ec)) => {
                insert_anchor_to_char(
                    &mut self.content,
                    ec.0,
                    ec.1,
                    ann_idx,
                    style.end_type,
                    false,
                    Ghost(n_ann),
                );
                self.init_styles.insert_start(ann_idx);
                proof {
                    let s1 = self.content@;
                    assert(same_active_but(s0, init0, s1, init0, ann_idx));
                    crate::anchors::lemma_same_active_init(s1, init0, ann_idx);
                    assert forall|j: int| 0 <= j < s1.len() implies (#[trigger] s1[j]).wf() by {
                        assert(elem_ok(s1[j], n_ann));
                    }
                    crate::anchors::lemma_same_active_trans(s0, init0, s1, init0, s1, init0.insert(ann_idx), ann_idx);
                }
            },
            (None, None) => {
                self.init_styles.insert_start(ann_idx);
                proof {
                    crate::anchors::lemma_same_active_init(s0, init0, ann_idx);
                }
            },
        }
        proof {
            let s2 = self.content@;
            assert(text_of_elems(s2).len() == len);
            assert forall|k: int| 0 <= k < s2.len() implies (#[trigger] s2[k]).wf() by {
                assert(elem_ok(s2[k], n_ann));
            }
            assert(crate::anchors::anchored_range(
                s2,
                self.init_styles.inner@,
                ann_idx,
                start as int,
                end as int,
                style.start_type,
                style.end_type,
            ));
            crate::anchors::lemma_active_range(
                s2,
                self.init_styles.inner@,
                ann_idx,
                start as int,
                end as int,
                style.start_type,
                style.end_type,
            );
            assert(same_active_but(s0, init0, s2, self.init_styles.inner@, ann_idx));
            crate::anchors::lemma_never_active(s0, init0, ann_idx);
            crate::anchors::lemma_active_sets(
                s0,
                init0,
                s2,
                self.init_styles.inner@,
                ann_idx,
                start as int,
                end as int,
            );
        }
        self.store.insert_local(OpContent::new_ann(ann));
    }
}

/// The start cursor of a non-empty range never lies after its end cursor:
/// in the same element, the start's byte is before the cut made for the end.
proof fn lemma_cursor_order(len: int, os: int, oe: int, st: AnchorType, et: AnchorType, start: int, end: int, base: int)
    requires
        start < end,
        0 <= os,
        0 <= oe < len,
        base + os == match st {
            AnchorType::Before => start,
            AnchorType::After => start - 1,
        },
        base + oe == match et {
            AnchorType::Before => end,
            AnchorType::After => end - 1,
        },
    ensures
        os < anchor_cut(len, oe, et),
        !(st == AnchorType::Before && os == 0) ==> anchor_cut(len, os, st) <= anchor_cut(
            len,
            oe,
            et,
        ),
{
}

/// Text length before element `a` is at most that before element `b`,
/// when `a <= b`.
pub proof fn lemma_prefix_len_mono(s: Seq<Elem>, a: int, b: int)
    requires
        0 <= a <= b <= s.len(),
    ensures
        text_of_elems(s.take(a)).len() <= text_of_elems(s.take(b)).len(),
{
    assert(s.take(b) =~= s.take(a) + s.subrange(a, b));
    lemma_text_concat(s.take(a), s.subrange(a, b));
}

/// Two cursors of visible bytes `p1 <= p2` come in order.
pub proof fn lemma_cursor_le(s: Seq<Elem>, i1: int, o1: int, i2: int, o2: int)
    requires
        0 <= i1 < s.len(),
        0 <= i2 < s.len(),
        !s[i2].status.spec_is_dead(),
        0 <= o1,
        o2 < s[i2].bytes().len(),
        text_of_elems(s.take(i1)).len() + o1 <= text_of_elems(s.take(i2)).len() + o2,
    ensures
        i1 <= i2,
        i1 == i2 ==> o1 <= o2,
{
    if i1 > i2 {
        lemma_text_split_at(s, i2);
        lemma_prefix_len_mono(s, i2 + 1, i1);
    }
}

/// Whether byte `off` of the element is a character boundary.
fn elem_char_boundary(e: &Elem, off: usize) -> (b: bool)
    requires
        e.wf(),
        off <= e.bytes().len(),
    ensures
        b == is_char_boundary(e.bytes(), off as int),
{
    let bs = bytes_as_slice(&e.string);
    proof {
        is_char_boundary_start_end_of_seq(e.bytes());
    }
    if off == 0 || off == bs.len() {
        return true;
    }
    proof {
        is_char_boundary_iff_not_is_continuation_byte(e.bytes(), off as int);
    }
    let x = bs[off];
    !(0x80 <= x && x <= 0xbf)
}

/// The element holding atom `id`, and the atom's offset in it.
fn find_cursor(content: &Vec<Elem>, id: OpID) -> (r: Option<(usize, usize)>)
    requires
        forall|k: int| 0 <= k < content@.len() ==> (#[trigger] content@[k]).wf(),
    ensures
        r matches Some(c) ==> {
            &&& c.0 < content@.len()
            &&& content@[c.0 as int].spec_contains_id(id)
            &&& c.1 == id.counter - content@[c.0 as int].id.counter
            &&& c.1 < content@[c.0 as int].bytes().len()
        },
        r is None ==> forall|k: int|
            0 <= k < content@.len() ==> !(#[trigger] content@[k]).spec_contains_id(id),
        r matches Some(c) ==> forall|k: int| 0 <= k < c.0 ==> !(#[trigger] content@[k]).spec_contains_id(id),
{
    let mut i: usize = 0;
    while i < content.len()
        invariant
            forall|k: int| 0 <= k < content@.len() ==> (#[trigger] content@[k]).wf(),
            0 <= i <= content@.len(),
            forall|k: int| 0 <= k < i ==> !(#[trigger] content@[k]).spec_contains_id(id),
        decreases content@.len() - i,
    {
        if content[i].contains_id(id) {
            return Some((i, (id.counter - content[i].id.counter) as usize));
        }
        i = i + 1;
    }
    None
}

/// The position one atom after `c`, or `None` past the last atom.
fn shift_by_one(content: &Vec<Elem>, c: (usize, usize)) -> (r: Option<(usize, usize)>)
    requires
        c.0 < content@.len(),
        c.1 < content@[c.0 as int].bytes().len(),
    ensures
        r matches Some(d) ==> d.0 < content@.len() && d.1 < content@[d.0 as int].bytes().len()
            && (d.1 == 0 || (d.0 == c.0 && d.1 == c.1 + 1)),
{
    let len = content[c.0].atom_len();
    let n = content.len();
    if c.1 + 1 < len {
        Some((c.0, c.1 + 1))
    } else if c.0 + 1 < n {
        if content[c.0 + 1].atom_len() > 0 {
            Some((c.0 + 1, 0))
        } else {
            None
        }
    } else {
        None
    }
}

/// The left origin of the atom at `c`: the element's origin for its first
/// atom, else the atom before it.
fn find_left_origin(content: &Vec<Elem>, c: (usize, usize)) -> (r: Option<OpID>)
    requires
        c.0 < content@.len(),
        c.1 < content@[c.0 as int].bytes().len(),
        content@[c.0 as int].wf(),
{
    let e = &content[c.0];
    if c.1 == 0 {
        e.left
    } else {
        Some(e.id.inc((c.1 - 1) as u32))
    }
}

/// Orders two right parents: a missing one comes after any position.
fn right_parent_less(a: Option<(usize, usize)>, b: Option<(usize, usize)>) -> (r: (bool, bool))
    ensures
        r.0 == match (a, b) {
            (None, None) => false,
            (None, Some(_)) => false,
            (Some(_), None) => true,
            (Some(x), Some(y)) => x.0 < y.0 || (x.0 == y.0 && x.1 < y.1),
        },
        r.1 == match (a, b) {
            (None, None) => true,
            (Some(x), Some(y)) => x == y,
            _ => false,
        },
{
    match (a, b) {
        (None, None) => (false, true),
        (None, Some(_)) => (false, false),
        (Some(_), None) => (true, false),
        (Some(x), Some(y)) => (x.0 < y.0 || (x.0 == y.0 && x.1 < y.1), x.0 == y.0 && x.1 == y.1),
    }
}

/// The right parent of an insertion with origins `left`, `right`: the
/// position of `right` when `right` was itself inserted right after `left`.
fn right_parent(content: &Vec<Elem>, left: Option<OpID>, right: Option<OpID>) -> (r: Option<(usize, usize)>)
    requires
        forall|k: int| 0 <= k < content@.len() ==> (#[trigger] content@[k]).wf(),
    ensures
        r matches Some(c) ==> c.0 < content@.len() && c.1 < content@[c.0 as int].bytes().len(),
{
    match right {
        Some(x) => match find_cursor(content, x) {
            Some(c) => {
                if find_left_origin(content, c) == left {
                    Some(c)
                } else {
                    None
                }
            },
            None => None,
        },
        None => None,
    }
}

/// Whether no run of `visited` holds `id`.
fn none_contains(visited: &Vec<crate::IdSpan>, id: OpID) -> (b: bool)
    requires
        forall|k: int| 0 <= k < visited@.len() ==> (#[trigger] visited@[k]).id.counter + visited@[k].len <= u32::MAX,
    ensures
        b == forall|k: int| 0 <= k < visited@.len() ==> !(#[trigger] visited@[k]).spec_contains(id),
{
    let mut i: usize = 0;
    while i < visited.len()
        invariant
            forall|k: int| 0 <= k < visited@.len() ==> (#[trigger] visited@[k]).id.counter + visited@[k].len <= u32::MAX,
            0 <= i <= visited@.len(),
            forall|k: int| 0 <= k < i ==> !(#[trigger] visited@[k]).spec_contains(id),
        decreases visited@.len() - i,
    {
        if visited[i].contains(id) {
            return false;
        }
        i = i + 1;
    }
    true
}

/// Where a remote insertion with id `op_id` and origins `elt_left`,
/// `elt_right` goes, by the Fugue rule (which keeps concurrent insertions
/// from interleaving): scanning from just after the left origin up to the
/// right origin, it skips the runs that belong before it. `None` or
/// `Some(None)` mean the end of the document; `Some(Some(c))` the position
/// `c`, before the atom there.
fn find_right(content: &Vec<Elem>, op_id: OpID, elt_left: Option<OpID>, elt_right: Option<OpID>) -> (r: Option<Option<(usize, usize)>>)
    requires
        forall|k: int| 0 <= k < content@.len() ==> (#[trigger] content@[k]).wf(),
    ensures
        r matches Some(Some(c)) ==> c.0 < content@.len() && c.1 < content@[c.0 as int].bytes().len(),
{
    let n = content.len();
    if n == 0 {
        return Some(None);
    }
    let scan_start: (usize, usize) = match elt_left {
        None => {
            if content[0].atom_len() == 0 {
                return Some(None);
            }
            (0, 0)
        },
        Some(l) => match find_cursor(content, l) {
            Some(c) => match shift_by_one(content, c) {
                Some(d) => d,
                None => {
                    return None;
                },
            },
            None => {
                return None;
            },
        },
    };
    let mut visited: Vec<crate::IdSpan> = Vec::new();
    let mut left: Option<(usize, usize)> = None;
    let mut scanning = false;
    let mut elt_right_parent: Option<Option<(usize, usize)>> = None;
    let mut k: usize = scan_start.0;
    while k < n
        invariant
            forall|j: int| 0 <= j < content@.len() ==> (#[trigger] content@[j]).wf(),
            n == content@.len(),
            scan_start.0 <= k <= n,
            scan_start.1 < content@[scan_start.0 as int].bytes().len(),
            forall|j: int| 0 <= j < visited@.len() ==> (#[trigger] visited@[j]).id.counter + visited@[j].len <= u32::MAX,
            left matches Some(c) ==> c.0 < n && c.1 < content@[c.0 as int].bytes().len(),
            elt_right_parent matches Some(Some(c)) ==> c.0 < n && c.1 < content@[c.0 as int].bytes().len(),
        decreases n - k,
    {
        let e = &content[k];
        let len = e.atom_len();
        let offset: usize = if k == scan_start.0 {
            scan_start.1
        } else {
            0
        };
        let o_left_origin: Option<OpID> = if offset == 0 {
            e.left
        } else {
            Some(e.id.inc((offset - 1) as u32))
        };
        let end_offset: usize = match elt_right {
            Some(r) => if e.contains_id(r) {
                (r.counter - e.id.counter) as usize
            } else {
                len
            },
            None => len,
        };
        if end_offset <= offset {
            break;
        }
        if o_left_origin != elt_left {
            let outside = match o_left_origin {
                None => true,
                Some(o) => none_contains(&visited, o),
            };
            if outside {
                break;
            }
        }
        visited.push(crate::IdSpan::new(e.id.inc(offset as u32), end_offset - offset));
        if o_left_origin == elt_left {
            if e.right == elt_right {
                if e.id.client > op_id.client {
                    break;
                } else {
                    scanning = false;
                }
            } else {
                let o_right_parent = right_parent(content, elt_left, e.right);
                if elt_right_parent.is_none() {
                    elt_right_parent = Some(right_parent(content, elt_left, elt_right));
                }
                let erp = match elt_right_parent {
                    Some(x) => x,
                    None => None,
                };
                let (less, equal) = right_parent_less(o_right_parent, erp);
                if less {
                    scanning = true;
                } else if equal && e.id.client > op_id.client {
                    break;
                } else {
                    scanning = false;
                }
            }
        }
        if !scanning {
            left = Some((k, end_offset - 1));
        }
        k = k + 1;
    }
    match left {
        Some(l) => Some(shift_by_one(content, l)),
        None => Some(Some(scan_start)),
    }
}

/// Whether the bytes are valid UTF-8.
fn is_valid_utf8(b: &[u8]) -> (r: bool)
    ensures
        r == valid_utf8(b@),
{
    match crate::utf16::str_from_utf8(b) {
        Some(_) => true,
        None => false,
    }
}

/// A remote insertion that can be applied to a text of `len` bytes: its
/// bytes are non-empty valid UTF-8, its ids stay in the `i32` range the
/// elements use, and the text stays below `u32::MAX` bytes.
pub open spec fn text_op_fits(op: Op, len: int) -> bool {
    match op.content {
        OpContent::Text(t) => {
            &&& slice_bytes(t.text).len() > 0
            &&& valid_utf8(slice_bytes(t.text))
            &&& op.id.counter + slice_bytes(t.text).len() <= i32::MAX
            &&& len + slice_bytes(t.text).len() < u32::MAX
        },
        _ => false,
    }
}

/// Puts the remote run `text` with id `id` and origins `left`, `right` where
/// the Fugue rule places it (a place inside a character, which no
/// well-formed history gives, moves to the character's end).
#[verifier::spinoff_prover]
#[verifier::rlimit(40)]
fn apply_text(
    content: &mut Vec<Elem>,
    id: OpID,
    left: Option<OpID>,
    right: Option<OpID>,
    text: append_only_bytes::BytesSlice,
    Ghost(n_ann): Ghost<int>,
)
    requires
        elems_ok(old(content)@, n_ann),
        slice_bytes(text).len() > 0,
        valid_utf8(slice_bytes(text)),
        id.counter + slice_bytes(text).len() <= i32::MAX,
    ensures
        elems_ok(final(content)@, n_ann),
        exists|k: int|
            0 <= k <= text_of_elems(old(content)@).len() && text_of_elems(final(content)@)
                == text_of_elems(old(content)@).take(k) + slice_bytes(text) + text_of_elems(
                old(content)@,
            ).skip(k),
{
    let ghost old_s = content@;
    let ghost t = text_of_elems(old_s);
    proof {
        assert forall|k: int| 0 <= k < old_s.len() implies (#[trigger] old_s[k]).wf() by {
            assert(elem_ok(old_s[k], n_ann));
        }
    }
    let pos = find_right(content, id, left, right);
    let ne = Elem::new(id, left, right, text);
    proof {
        assert(elem_ok(ne, n_ann));
    }
    match pos {
        Some(Some(c)) => {
            if c.1 == 0 {
                content.insert(c.0, ne);
                proof {
                    let i = c.0 as int;
                    assert(content@ =~= old_s.take(i) + seq![ne] + old_s.skip(i));
                    assert(old_s =~= old_s.take(i) + old_s.skip(i));
                    lemma_text_concat(old_s.take(i) + seq![ne], old_s.skip(i));
                    lemma_text_concat(old_s.take(i), seq![ne]);
                    lemma_text_concat(old_s.take(i), old_s.skip(i));
                    lemma_text_single(ne);
                    let k = text_of_elems(old_s.take(i)).len() as int;
                    assert(t.take(k) =~= text_of_elems(old_s.take(i)));
                    assert(t.skip(k) =~= text_of_elems(old_s.skip(i)));
                    lemma_insert_ok(old_s, i, ne, n_ann);
                }
            } else {
                let len = content[c.0].atom_len();
                let mut off = c.1;
                while off < len && !elem_char_boundary(&content[c.0], off)
                    invariant
                        content@ == old_s,
                        c.0 < content@.len(),
                        c.1 <= off <= len,
                        len == content@[c.0 as int].bytes().len(),
                        forall|k: int| 0 <= k < content@.len() ==> (#[trigger] content@[k]).wf(),
                    decreases len - off,
                {
                    off = off + 1;
                }
                insert_elem_at(content, c.0, off, ne, Ghost(n_ann));
                proof {
                    let i = c.0 as int;
                    let v = old_s[i].visible();
                    let o = if old_s[i].status.spec_is_dead() {
                        0
                    } else {
                        off as int
                    };
                    lemma_text_split_at(old_s, i);
                    let ti = text_of_elems(old_s.take(i));
                    let rest = text_of_elems(old_s.skip(i + 1));
                    let k = ti.len() + o;
                    assert(t =~= ti + v + rest);
                    assert(t.take(k) =~= ti + v.take(o));
                    assert(t.skip(k) =~= v.skip(o) + rest);
                }
            }
        },
        _ => {
            content.push(ne);
            proof {
                assert(content@ =~= old_s + seq![ne]);
                lemma_text_concat(old_s, seq![ne]);
                lemma_text_single(ne);
                assert(t.take(t.len() as int) =~= t);
                assert(t.skip(t.len() as int) =~= Seq::<u8>::empty());
                lemma_insert_ok(old_s, old_s.len() as int, ne, n_ann);
                assert(old_s.take(old_s.len() as int) + seq![ne] + old_s.skip(old_s.len() as int) =~= old_s + seq![ne]);
            }
        },
    }
}

/// Inserting an [`elem_ok`] element keeps the elements [`elem_ok`].
pub proof fn lemma_insert_ok(s: Seq<Elem>, i: int, e: Elem, n_ann: int)
    requires
        0 <= i <= s.len(),
        elems_ok(s, n_ann),
        elem_ok(e, n_ann),
    ensures
        elems_ok(s.take(i) + seq![e] + s.skip(i), n_ann),
{
    let r = s.take(i) + seq![e] + s.skip(i);
    assert forall|k: int| 0 <= k < r.len() implies elem_ok(#[trigger] r[k], n_ann) by {
        if k < i {
            assert(r[k] == s[k]);
        } else if k > i {
            assert(r[k] == s[k - 1]);
        }
    }
}

/// Marks bytes `a..b` of element `i` deleted by a remote deletion, cutting
/// the element where needed. Answers the index right after the pieces.
#[verifier::spinoff_prover]
#[verifier::rlimit(80)]
fn mark_deleted(content: &mut Vec<Elem>, i: usize, a: usize, b: usize, Ghost(n_ann): Ghost<int>) -> (r: usize)
    requires
        elems_ok(old(content)@, n_ann),
        i < old(content)@.len(),
        a < b <= old(content)@[i as int].bytes().len(),
        is_char_boundary(old(content)@[i as int].bytes(), a as int),
        is_char_boundary(old(content)@[i as int].bytes(), b as int),
    ensures
        elems_ok(final(content)@, n_ann),
        i < r <= final(content)@.len(),
        final(content)@.len() == old(content)@.len() + (r - i - 1),
        text_of_elems(final(content)@).len() <= text_of_elems(old(content)@).len(),
        final(content)@.take(i as int) == old(content)@.take(i as int),
        final(content)@.skip(r as int) == old(content)@.skip(i + 1),
        forall|j: int|
            i <= j < r ==> (#[trigger] final(content)@[j]).status.spec_is_dead() || ({
                let e0 = old(content)@[i as int];
                &&& final(content)@[j].id.client == e0.id.client
                &&& (final(content)@[j].id.counter + final(content)@[j].bytes().len() <= e0.id.counter + a
                    && a > 0 || final(content)@[j].id.counter >= e0.id.counter + b && b < e0.bytes().len())
            }),
{
    let ghost old_s = content@;
    let ghost e0 = old_s[i as int];
    proof {
        assert(elem_ok(e0, n_ann));
        lemma_skip_boundary(e0.bytes(), a as int, b as int);
    }
    let mut e = content.remove(i);
    let len = e.atom_len();
    let mut at: usize = i;
    let ghost mut mid: Seq<Elem> = Seq::empty();
    proof {
        assert(content@ =~= old_s.take(i as int) + mid + old_s.skip(i as int + 1));
    }
    if a > 0 {
        let rest = e.split(a);
        content.insert(at, e);
        proof {
            mid = mid.push(e);
            assert(content@ =~= old_s.take(i as int) + mid + old_s.skip(i as int + 1));
        }
        let cl = content.len();
        assert(at < cl);
        at = at + 1;
        e = rest;
    }
    let mut tail: Option<Elem> = None;
    if b < len {
        let r2 = e.split(b - a);
        tail = Some(r2);
    }
    e.apply_remote_delete();
    let ghost ed = e;
    content.insert(at, e);
    proof {
        mid = mid.push(ed);
        assert(content@ =~= old_s.take(i as int) + mid + old_s.skip(i as int + 1));
    }
    let cl = content.len();
    assert(at < cl);
    at = at + 1;
    match tail {
        Some(r2) => {
            content.insert(at, r2);
            proof {
                mid = mid.push(r2);
                assert(content@ =~= old_s.take(i as int) + mid + old_s.skip(i as int + 1));
            }
            let cl = content.len();
            assert(at < cl);
            at = at + 1;
        },
        None => {},
    }
    proof {
        assert forall|j: int| 0 <= j < mid.len() implies elem_ok(#[trigger] mid[j], n_ann) by {}
        lemma_replace_ok(old_s, i as int, mid, n_ann);
        lemma_replace_one(old_s, i as int, mid);
        assert(ed.visible().len() == 0);
        let v = e0.visible().len();
        if a > 0 {
            if b < len {
                lemma_text_two_three(mid[0], mid[1], mid[2]);
                assert(mid =~= seq![mid[0], mid[1], mid[2]]);
            } else {
                lemma_text_two_three(mid[0], mid[1], mid[1]);
                assert(mid =~= seq![mid[0], mid[1]]);
            }
        } else {
            if b < len {
                lemma_text_two_three(mid[0], mid[1], mid[1]);
                assert(mid =~= seq![mid[0], mid[1]]);
            } else {
                lemma_text_single(mid[0]);
                assert(mid =~= seq![mid[0]]);
            }
        }
        assert(text_of_elems(mid).len() <= v);
        assert(content@.take(i as int) =~= old_s.take(i as int));
        assert(content@.skip(at as int) =~= old_s.skip(i + 1));
        assert forall|j: int| i <= j < at implies (#[trigger] content@[j]).status.spec_is_dead() || ({
            &&& content@[j].id.client == e0.id.client
            &&& (content@[j].id.counter + content@[j].bytes().len() <= e0.id.counter + a && a > 0
                || content@[j].id.counter >= e0.id.counter + b && b < e0.bytes().len())
        }) by {
            assert(content@[j] == mid[j - i]);
        }
    }
    at
}

/// Element `e` holds some of the atoms `id ..` (`len` of them).
pub open spec fn overlaps_run(e: Elem, id: OpID, len: int) -> bool {
    &&& len > 0
    &&& id.client == e.id.client
    &&& e.id.counter < id.counter + len
    &&& id.counter < e.id.counter + e.bytes().len()
}

/// The part of `e` that the atoms `id ..` (`len` of them) cover starts or
/// ends inside a character of `e`.
pub open spec fn run_cuts_char(e: Elem, id: OpID, len: int) -> bool {
    let a = if id.counter > e.id.counter { id.counter - e.id.counter } else { 0 };
    let b = if id.counter + len < e.id.counter + e.bytes().len() {
        id.counter + len - e.id.counter
    } else {
        e.bytes().len() as int
    };
    !is_char_boundary(e.bytes(), a) || !is_char_boundary(e.bytes(), b)
}

/// Marks deleted the atoms with ids `id ..` (`len` of them) wherever they
/// are; runs that would be cut inside a character are left alone (no
/// well-formed history asks for that).
fn delete_in_id_range(content: &mut Vec<Elem>, id: OpID, len: usize, Ghost(n_ann): Ghost<int>)
    requires
        elems_ok(old(content)@, n_ann),
        id.counter + len <= u32::MAX,
    ensures
        elems_ok(final(content)@, n_ann),
        text_of_elems(final(content)@).len() <= text_of_elems(old(content)@).len(),
        forall|j: int|
            0 <= j < final(content)@.len() && !(#[trigger] final(content)@[j]).status.spec_is_dead()
                && overlaps_run(final(content)@[j], id, len as int) ==> run_cuts_char(final(content)@[j], id, len as int),
{
    let mut i: usize = 0;
    while i < content.len()
        invariant
            elems_ok(content@, n_ann),
            id.counter + len <= u32::MAX,
            0 <= i <= content@.len(),
            text_of_elems(content@).len() <= text_of_elems(old(content)@).len(),
            forall|j: int|
                0 <= j < i && !(#[trigger] content@[j]).status.spec_is_dead() && overlaps_run(content@[j], id, len as int)
                    ==> run_cuts_char(content@[j], id, len as int),
        decreases content@.len() - i,
    {
        let ghost s_before = content@;
        proof {
            assert(elem_ok(content@[i as int], n_ann));
        }
        if content[i].overlap(id, len) {
            let e_start = content[i].id.counter;
            let e_len = content[i].atom_len();
            let a: usize = if id.counter > e_start {
                (id.counter - e_start) as usize
            } else {
                0
            };
            let id_end: u64 = id.counter as u64 + len as u64;
            let e_end: u64 = e_start as u64 + e_len as u64;
            let b: usize = if id_end < e_end {
                (id_end - e_start as u64) as usize
            } else {
                e_len
            };
            if a < b && b <= e_len && elem_char_boundary(&content[i], a) && elem_char_boundary(&content[i], b) {
                let ni = mark_deleted(content, i, a, b, Ghost(n_ann));
                proof {
                    assert forall|j: int|
                        0 <= j < ni && !(#[trigger] content@[j]).status.spec_is_dead() && overlaps_run(content@[j], id, len as int)
                            implies run_cuts_char(content@[j], id, len as int) by {
                        if j < i {
                            assert(content@.take(i as int)[j] == s_before.take(i as int)[j]);
                        } else {
                            assert(e_len == s_before[i as int].bytes().len());
                            assert(e_start == s_before[i as int].id.counter);
                        }
                    }
                }
                i = ni;
            } else {
                proof {
                    let e = content@[i as int];
                    assert(e_len == e.bytes().len());
                    assert(a == (if id.counter > e.id.counter { id.counter - e.id.counter } else { 0 }));
                    assert(b == (if id.counter + len < e.id.counter + e.bytes().len() {
                        id.counter + len - e.id.counter
                    } else {
                        e.bytes().len() as int
                    }));
                    if overlaps_run(e, id, len as int) {
                        assert(a < b);
                        assert(run_cuts_char(e, id, len as int));
                    }
                }
                i = i + 1;
            }
        } else {
            i = i + 1;
        }
    }
}

/// Elements with anchors below `n1` have them below any `n2 >= n1`.
pub proof fn lemma_elems_ok_grow(s: Seq<Elem>, n1: int, n2: int)
    requires
        elems_ok(s, n1),
        n1 <= n2,
    ensures
        elems_ok(s, n2),
{
    assert forall|k: int| 0 <= k < s.len() implies elem_ok(#[trigger] s[k], n2) by {
        assert(elem_ok(s[k], n1));
    }
}

/// The first text byte of a range whose start anchor names the character
/// at byte `q`: that byte (a before-anchor) or the next (an after-anchor).
pub open spec fn placed_start(q: int, t: AnchorType) -> int {
    if t == AnchorType::Before {
        q
    } else {
        q + 1
    }
}

/// The end of a range whose end anchor names the character at byte `q`:
/// that byte (a before-anchor) or the next (an after-anchor).
pub open spec fn placed_end(q: int, t: AnchorType) -> int {
    if t == AnchorType::Before {
        q
    } else {
        q + 1
    }
}

impl RichText {
    /// A remote annotation anchored at both of its characters, as `apply`
    /// does it, is active exactly on the bytes between them.
    proof fn lemma_remote_range(&self, before: RichText, s1: Seq<Elem>, a: &Annotation, idx: i32)
        requires
            self.wf(),
            a.range.start.id is Some,
            a.range.end.id is Some,
            self.text() == before.text(),
            idx == self.annotations().len() - 1,
            !self.init_active().contains(idx),
            forall|st: bool, bf: bool| #[trigger] anchor_none(before.content@, idx, st, bf),
            forall|q: int|
                #![trigger char_placed(before.content@, a.range.start.id.unwrap(), a.range.start.type_, q)]
                char_placed(before.content@, a.range.start.id.unwrap(), a.range.start.type_, q)
                    ==> anchor_on(s1, idx, true, is_before(a.range.start.type_), q),
            forall|id2: OpID, t2: AnchorType, q: int|
                #![trigger char_placed(s1, id2, t2, q)]
                char_placed(before.content@, id2, t2, q) ==> char_placed(s1, id2, t2, q),
            forall|st: bool, bf: bool|
                #![trigger anchor_none(s1, idx, st, bf)]
                !(st == true && bf == is_before(a.range.start.type_)) && anchor_none(before.content@, idx, st, bf)
                    ==> anchor_none(s1, idx, st, bf),
            forall|q: int|
                #![trigger char_placed(s1, a.range.end.id.unwrap(), a.range.end.type_, q)]
                char_placed(s1, a.range.end.id.unwrap(), a.range.end.type_, q) && anchor_none(s1, idx, false, is_before(a.range.end.type_))
                    ==> anchor_on(self.content@, idx, false, is_before(a.range.end.type_), q),
            forall|st: bool, bf: bool, r: int|
                #![trigger anchor_on(self.content@, idx, st, bf, r)]
                !(st == false && bf == is_before(a.range.end.type_)) && anchor_on(s1, idx, st, bf, r)
                    ==> anchor_on(self.content@, idx, st, bf, r),
            forall|st: bool, bf: bool|
                #![trigger anchor_none(self.content@, idx, st, bf)]
                !(st == false && bf == is_before(a.range.end.type_)) && anchor_none(s1, idx, st, bf)
                    ==> anchor_none(self.content@, idx, st, bf),
        ensures
            forall|qs: int, qe: int|
                #![trigger char_placed(before.content@, a.range.start.id.unwrap(), a.range.start.type_, qs), char_placed(before.content@, a.range.end.id.unwrap(), a.range.end.type_, qe)]
                char_placed(before.content@, a.range.start.id.unwrap(), a.range.start.type_, qs)
                    && char_placed(before.content@, a.range.end.id.unwrap(), a.range.end.type_, qe)
                    && placed_start(qs, a.range.start.type_) < placed_end(qe, a.range.end.type_)
                    ==> forall|k: int, p: int|
                    #![trigger holds_position(self.content@, k, p)]
                    0 <= k < self.content@.len() && 0 <= p && holds_position(self.content@, k, p)
                        ==> (active_at(self.content@, self.init_styles.inner@, k).contains(idx)
                    <==> placed_start(qs, a.range.start.type_) <= p < placed_end(qe, a.range.end.type_)),
    {
        let sid = a.range.start.id.unwrap();
        let eid = a.range.end.id.unwrap();
        let st = a.range.start.type_;
        let et = a.range.end.type_;
        let bs = is_before(st);
        let be = is_before(et);
        let s2 = self.content@;
        assert forall|qs: int, qe: int|
            #[trigger] char_placed(before.content@, sid, st, qs) && #[trigger] char_placed(before.content@, eid, et, qe)
                && placed_start(qs, st) < placed_end(qe, et) implies forall|k: int, p: int|
            #![trigger holds_position(s2, k, p)]
            0 <= k < s2.len() && 0 <= p && holds_position(s2, k, p) ==> (active_at(s2, self.init_styles.inner@, k).contains(idx)
                <==> placed_start(qs, st) <= p < placed_end(qe, et)) by {
            let start = placed_start(qs, st);
            let end = placed_end(qe, et);
            assert(anchor_none(before.content@, idx, true, bs));
            assert(anchor_on(s1, idx, true, bs, qs));
            assert(anchor_none(before.content@, idx, true, !bs));
            assert(anchor_none(s1, idx, true, !bs));
            assert(anchor_none(before.content@, idx, false, be));
            assert(anchor_none(s1, idx, false, be));
            assert(anchor_none(before.content@, idx, false, !be));
            assert(anchor_none(s1, idx, false, !be));
            assert(char_placed(s1, eid, et, qe));
            assert(anchor_on(s2, idx, false, be, qe));
            assert(anchor_on(s2, idx, true, bs, qs));
            assert(anchor_none(s2, idx, true, !bs));
            assert(anchor_none(s2, idx, false, !be));
            assert(text_of_elems(s2) == text_of_elems(before.content@));
            assert forall|i: int| 0 <= i < s2.len() implies (#[trigger] s2[i]).wf() by {
                assert(elem_ok(s2[i], self.ann.idx_to_ann.len() as int));
            }
            assert(crate::anchors::anchored_range(s2, self.init_styles.inner@, idx, start, end, st, et));
            crate::anchors::lemma_active_range(s2, self.init_styles.inner@, idx, start, end, st, et);
        }
    }

    /// Applies a remote operation to the elements: an insertion is placed by
    /// the Fugue rule, a deletion marks its atoms deleted, an annotation is
    /// registered and anchored to the characters it names (when both are
    /// alive in the text, it is then active on exactly the bytes from its
    /// start character to its end character, each side taken as its anchor
    /// type says). Parts that no
    /// well-formed history produces (invalid UTF-8, ids past the `i32`
    /// range, a cut inside a character, unknown anchor characters, a text
    /// past `u32::MAX` bytes) are left out.
    #[verifier::spinoff_prover]
    fn apply(&mut self, op: &Op)
        requires
            old(self).wf(),
        ensures
            final(self).wf(),
            final(self).store == old(self).store,
            final(self).pending_ops == old(self).pending_ops,
            match op.content {
                OpContent::Text(t) => {
                    &&& final(self).annotations() == old(self).annotations()
                    &&& text_op_fits(*op, old(self).text().len() as int) ==> exists|k: int|
                        0 <= k <= old(self).text().len() && final(self).text() == old(self).text().take(k)
                            + slice_bytes(t.text) + old(self).text().skip(k)
                    &&& !text_op_fits(*op, old(self).text().len() as int) ==> *final(self) == *old(self)
                },
                OpContent::Del(d) => {
                    &&& final(self).annotations() == old(self).annotations()
                    &&& final(self).text().len() <= old(self).text().len()
                    &&& d.len != i32::MIN && d.len != 0 && spec_positive(d).start.counter + spec_positive(d).len
                        <= u32::MAX ==> forall|j: int|
                        0 <= j < final(self).elems().len() && !(#[trigger] final(self).elems()[j]).status.spec_is_dead()
                            && overlaps_run(final(self).elems()[j], spec_positive(d).start, spec_positive(d).len as int)
                            ==> run_cuts_char(
                            final(self).elems()[j],
                            spec_positive(d).start,
                            spec_positive(d).len as int,
                        )
                },
                OpContent::Ann(a) => {
                    &&& final(self).text() == old(self).text()
                    &&& final(self).annotations() == if old(self).annotations().len() + 3 >= i32::MAX {
                        old(self).annotations()
                    } else if old(self).annotations().len() == 0 {
                        seq![a, a]
                    } else {
                        old(self).annotations().push(a)
                    }
                    &&& forall|qs: int, qe: int|
                        #![trigger char_placed(old(self).elems(), a.range.start.id.unwrap(), a.range.start.type_, qs), char_placed(old(self).elems(), a.range.end.id.unwrap(), a.range.end.type_, qe)]
                        old(self).annotations().len() + 3 < i32::MAX && a.range.start.id is Some && a.range.end.id is Some
                            && char_placed(old(self).elems(), a.range.start.id.unwrap(), a.range.start.type_, qs)
                            && char_placed(old(self).elems(), a.range.end.id.unwrap(), a.range.end.type_, qe)
                            && placed_start(qs, a.range.start.type_) < placed_end(qe, a.range.end.type_)
                            ==> forall|k: int, p: int|
                            #![trigger holds_position(final(self).elems(), k, p)]
                            0 <= k < final(self).elems().len() && 0 <= p && holds_position(final(self).elems(), k, p)
                                ==> (active_at(final(self).elems(), final(self).init_active(), k).contains(
                                (final(self).annotations().len() - 1) as i32,
                            ) <==> placed_start(qs, a.range.start.type_) <= p < placed_end(qe, a.range.end.type_))
                },
            },
    {
        let ghost n_ann = self.ann.idx_to_ann.len() as int;
        match &op.content {
            OpContent::Text(t) => {
                let b = bytes_as_slice(&t.text);
                let n = b.len();
                if n == 0 || n > i32::MAX as usize || !is_valid_utf8(b) {
                    return;
                }
                if (op.id.counter as u64) + (n as u64) > i32::MAX as u64 {
                    return;
                }
                let cur = self.len();
                if (cur as u64) + (n as u64) >= u32::MAX as u64 {
                    return;
                }
                let ghost t0 = self.text();
                apply_text(&mut self.content, op.id, t.left, t.right, bytes_clone(&t.text), Ghost(n_ann));
                proof {
                    let k = choose|k: int|
                        0 <= k <= t0.len() && self.text() == t0.take(k) + b@ + t0.skip(k);
                    assert(self.text().len() == t0.len() + n);
                    assert(0 <= k <= t0.len() && self.text() == t0.take(k) + slice_bytes(t.text)
                        + t0.skip(k));
                    assert(self.wf());
                }
            },
            OpContent::Del(d) => {
                if d.len == i32::MIN || d.len == 0 {
                    return;
                }
                let p = d.positive();
                if p.len <= 0 {
                    return;
                }
                if p.start.counter as u64 + p.len as u64 > u32::MAX as u64 {
                    return;
                }
                delete_in_id_range(&mut self.content, p.start, p.len as usize, Ghost(n_ann));
                assert(self.wf());
            },
            OpContent::Ann(a) => {
                if self.ann.idx_to_ann.len() + 3 >= i32::MAX as usize {
                    return;
                }
                let idx = self.ann.register(arc_ann_clone(a));
                let ghost n2 = self.ann.idx_to_ann.len() as int;
                proof {
                    lemma_elems_ok_grow(self.content@, n_ann, n2);
                }
                match a.range.start.id {
                    Some(sid) => {
                        self.anchor_remote(sid, idx, a.range.start.type_, true);
                    },
                    None => {
                        self.init_styles.insert_start(idx);
                    },
                }
                proof {
                    assert forall|x: i32| #[trigger] self.init_styles.inner@.contains(x) implies x
                        < self.ann.idx_to_ann.len() by {
                        if x != idx {
                            assert(old(self).init_styles.inner@.contains(x));
                        }
                    }
                }
                let ghost s1 = self.content@;
                match a.range.end.id {
                    Some(eid) => {
                        self.anchor_remote(eid, idx, a.range.end.type_, false);
                    },
                    None => {},
                }
                proof {
                    if a.range.start.id is Some && a.range.end.id is Some {
                        let s0 = old(self).content@;
                        assert forall|st: bool, bf: bool| #[trigger] anchor_none(s0, idx, st, bf) by {
                            assert forall|j: int| 0 <= j < s0.len() implies !#[trigger] anchor_in(s0[j], idx, st, bf) by {
                                assert(elem_ok(s0[j], n_ann));
                            }
                        }
                        if self.init_active().contains(idx) {
                            assert(old(self).init_styles.inner@.contains(idx));
                        }
                        self.lemma_remote_range(*old(self), s1, &**a, idx);
                    }
                }
            },
        }
    }

    /// Anchors annotation `idx` to the character holding atom `id`, when it
    /// is known and the cut falls on a character boundary.
    fn anchor_remote(&mut self, id: OpID, idx: AnnIdx, type_: AnchorType, is_start: bool)
        requires
            old(self).wf(),
            0 < idx < old(self).ann.idx_to_ann.len(),
        ensures
            final(self).wf(),
            final(self).store == old(self).store,
            final(self).pending_ops == old(self).pending_ops,
            final(self).ann == old(self).ann,
            final(self).init_styles == old(self).init_styles,
            final(self).text() == old(self).text(),
            anchor_char_present(old(self).elems(), id, type_) ==> anchored(final(self).elems(), idx, is_start, type_, id),
            forall|q: int|
                #![trigger char_placed(old(self).elems(), id, type_, q)]
                char_placed(old(self).elems(), id, type_, q) && anchor_none(old(self).elems(), idx, is_start, is_before(type_))
                    ==> anchor_on(final(self).elems(), idx, is_start, is_before(type_), q),
            forall|id2: OpID, t2: AnchorType, q: int|
                #![trigger char_placed(final(self).elems(), id2, t2, q)]
                char_placed(old(self).elems(), id2, t2, q) ==> char_placed(final(self).elems(), id2, t2, q),
            forall|st: bool, bf: bool, r: int|
                #![trigger anchor_on(final(self).elems(), idx, st, bf, r)]
                !(st == is_start && bf == is_before(type_)) && anchor_on(old(self).elems(), idx, st, bf, r)
                    ==> anchor_on(final(self).elems(), idx, st, bf, r),
            forall|st: bool, bf: bool|
                #![trigger anchor_none(final(self).elems(), idx, st, bf)]
                !(st == is_start && bf == is_before(type_)) && anchor_none(old(self).elems(), idx, st, bf)
                    ==> anchor_none(final(self).elems(), idx, st, bf),
    {
        let ghost n_ann = self.ann.idx_to_ann.len() as int;
        proof {
            assert forall|k: int| 0 <= k < self.content@.len() implies (#[trigger] self.content@[k]).wf() by {
                assert(elem_ok(self.content@[k], n_ann));
            }
        }
        match find_cursor(&self.content, id) {
            Some(c) => {
                let len = self.content[c.0].atom_len();
                let cut: usize = match type_ {
                    AnchorType::Before => if c.1 == 0 {
                        len
                    } else {
                        c.1
                    },
                    AnchorType::After => c.1 + 1,
                };
                if elem_char_boundary(&self.content[c.0], cut) {
                    insert_anchor_to_char(&mut self.content, c.0, c.1, idx, type_, is_start, Ghost(n_ann));
                    proof {
                        let e = old(self).content@[c.0 as int];
                        let j = if type_ == AnchorType::Before && c.1 > 0 { c.0 + 1 } else { c.0 as int };
                        assert(e.spec_contains_id(id));
                        assert(c.1 == id.counter - e.id.counter);
                        assert(crate::rich_tree::id_at(e.id, c.1 as int).counter == id.counter);
                        assert(crate::rich_tree::id_at(e.id, c.1 as int) == id);
                        assert(anchor_in(self.content@[j], idx, is_start, type_ == AnchorType::Before));
                        assert(anchor_in(self.elems()[j], idx, is_start, is_before(type_)));
                        assert(self.elems()[j].id.client == id.client);
                        assert(type_ == AnchorType::Before ==> self.elems()[j].id == id);
                        assert(anchored(self.elems(), idx, is_start, type_, id));
                        let s0 = old(self).content@;
                        assert forall|q: int|
                            #[trigger] char_placed(s0, id, type_, q) && anchor_none(s0, idx, is_start, is_before(type_))
                                implies anchor_on(self.elems(), idx, is_start, is_before(type_), q) by {
                            let k = choose|k: int|
                                #[trigger] anchor_char_at(s0, k, id, type_) && !s0[k].status.spec_is_dead()
                                    && elems_prefix(s0, k) + id.counter - s0[k].id.counter == q;
                            assert(k == c.0);
                        }
                        assert forall|id2: OpID, t2: AnchorType, q: int|
                            #[trigger] char_placed(s0, id2, t2, q) implies char_placed(self.elems(), id2, t2, q) by {
                            lemma_recut_placed(s0, self.content@, c.0 as int, id2, t2, q);
                        }
                    }
                } else {
                    proof {
                        if anchor_char_present(old(self).elems(), id, type_) {
                            let k = choose|k: int| anchor_char_at(old(self).elems(), k, id, type_);
                            assert(k == c.0);
                        }
                    }
                }
            },
            None => {},
        }
    }
}

/// The operations ordered by lamport timestamp; operations with equal
/// timestamps keep their order.
pub fn sort_by_lamport(ops: Vec<Op>) -> (r: Vec<Op>)
    ensures
        r@.to_multiset() == ops@.to_multiset(),
        forall|i: int, j: int| 0 <= i < j < r@.len() ==> r@[i].lamport <= r@[j].lamport,
{
    broadcast use vstd::seq_lib::group_to_multiset_ensures;

    let mut rest = ops;
    let mut out: Vec<Op> = Vec::new();
    while rest.len() > 0
        invariant
            out@.to_multiset().add(rest@.to_multiset()) == ops@.to_multiset(),
            forall|i: int, j: int| 0 <= i < j < out@.len() ==> out@[i].lamport <= out@[j].lamport,
            forall|i: int, j: int|
                0 <= i < out@.len() && 0 <= j < rest@.len() ==> out@[i].lamport <= rest@[j].lamport,
        decreases rest@.len(),
    {
        let mut m: usize = 0;
        let mut k: usize = 1;
        while k < rest.len()
            invariant
                rest@.len() > 0,
                m < rest@.len(),
                1 <= k <= rest@.len(),
                forall|j: int| 0 <= j < k ==> rest@[m as int].lamport <= rest@[j].lamport,
            decreases rest@.len() - k,
        {
            if rest[k].lamport < rest[m].lamport {
                m = k;
            }
            k = k + 1;
        }
        let ghost r0 = rest@;
        let ghost o0 = out@;
        let op = rest.remove(m);
        out.push(op);
        proof {
            assert(rest@ == r0.remove(m as int));
            assert(out@ == o0.push(op));
            assert(out@.to_multiset().add(rest@.to_multiset()) =~= ops@.to_multiset());
            assert forall|i: int, j: int|
                0 <= i < out@.len() && 0 <= j < rest@.len() implies out@[i].lamport <= rest@[j].lamport by {
                if j < m {
                    assert(rest@[j] == r0[j]);
                } else {
                    assert(rest@[j] == r0[j + 1]);
                }
                if i < o0.len() {
                    assert(out@[i] == o0[i]);
                }
            }
            assert forall|i: int, j: int| 0 <= i < j < out@.len() implies out@[i].lamport
                <= out@[j].lamport by {
                if j < o0.len() {
                    assert(out@[i] == o0[i]);
                    assert(out@[j] == o0[j]);
                } else {
                    assert(out@[i] == o0[i]);
                }
            }
        }
    }
    proof {
        assert(rest@ =~= Seq::<Op>::empty());
        assert(rest@.to_multiset() =~= vstd::multiset::Multiset::<Op>::empty());
        assert(out@.to_multiset().add(vstd::multiset::Multiset::<Op>::empty()) =~= out@.to_multiset());
    }
    out
}

impl RichText {
    /// Whether no element could be merged into the one before it (see
    /// [`Elem::spec_can_merge`]).
    pub fn check_no_mergeable_neighbor(&self) -> (b: bool)
        requires
            self.wf(),
        ensures
            b == forall|i: int|
                0 <= i < self.elems().len() - 1 ==> !(#[trigger] self.elems()[i]).spec_can_merge(
                    &self.elems()[i + 1],
                ),
    {
        let n = self.content.len();
        if n == 0 {
            return true;
        }
        let mut i: usize = 0;
        while i < n - 1
            invariant
                self.wf(),
                n == self.content@.len(),
                n > 0,
                i < n,
                forall|j: int| 0 <= j < i ==> !(#[trigger] self.content@[j]).spec_can_merge(&self.content@[j + 1]),
            decreases n - i,
        {
            proof {
                assert(elem_ok(self.content@[i as int], self.ann.idx_to_ann.len() as int));
                assert(elem_ok(self.content@[i + 1], self.ann.idx_to_ann.len() as int));
            }
            if self.content[i].can_merge(&self.content[i + 1]) {
                proof {
                    assert(self.elems()[i as int].spec_can_merge(&self.elems()[i + 1]));
                }
                return false;
            }
            i = i + 1;
        }
        true
    }

    /// The counter right after the stored history of peer `c`.
    pub closed spec fn history_end(&self, c: ClientID) -> int {
        log_end(self.store.ops_of(c))
    }

    /// The counter of the next local operation is where the document's own
    /// history ends (so [`RichText::version`] gives it for [`RichText::id`]).
    pub proof fn lemma_next_counter(&self)
        ensures
            self.next_counter() == self.history_end(self.client()),
    {
    }

    /// Takes remote operations, list by list: an operation that continues
    /// the stored history of its peer is stored and applied; one whose first
    /// atoms are known is cut to the unknown part; one that leaves a gap is
    /// kept pending; a known one is dropped, as is a malformed one. The taken
    /// operations are applied in lamport order, deletions last (so that a
    /// deletion never comes before the insertion it deletes); so a newly
    /// stored annotation operation grows the annotation table (unless it is
    /// full).
    #[verifier::rlimit(80)]
    #[verifier::spinoff_prover]
    pub fn import_ops(&mut self, exported: FxHashMap<ClientID, Vec<Op>>)
        requires
            old(self).wf(),
        ensures
            final(self).wf(),
            final(self).client() == old(self).client(),
            forall|c: ClientID| #[trigger] final(self).history_end(c) >= old(self).history_end(c),
            forall|c: ClientID|
                !has_op_of(exported@, c) ==> #[trigger] final(self).history(c) == old(self).history(c),
            forall|c: ClientID|
                filed_by_peer(exported@) && exported@.contains_key(c) && is_run(
                    exported@[c]@,
                    c,
                    old(self).history_end(c),
                ) ==> #[trigger] final(self).history_end(c) == run_end(
                    exported@[c]@,
                    old(self).history_end(c),
                ),
            exported@.dom() == Set::<ClientID>::empty() ==> *final(self) == *old(self),
            final(self).annotations().len() >= old(self).annotations().len(),
            (exists|c: ClientID| #[trigger] new_ann(old(self).history(c), final(self).history(c)))
                && final(self).annotations().len() + 3 < i32::MAX ==> final(self).annotations().len()
                > old(self).annotations().len(),
    {
        let keys = fx_map_keys(&exported);
        if keys.len() == 0 {
            proof {
                assert(keys@.to_set() =~= Set::<ClientID>::empty());
            }
            return;
        }
        let ghost store0 = self.store;
        let mut all_ops: Vec<Op> = Vec::new();
        let mut ki: usize = 0;
        while ki < keys.len()
            invariant
                self.wf(),
                self.store.client == store0.client,
                keys@.to_set() == exported@.dom(),
                keys@.no_duplicates(),
                0 <= ki <= keys@.len(),
                self.ann == old(self).ann,
                forall|d: ClientID| #[trigger] self.store.ops_of(d).len() >= store0.ops_of(d).len(),
                forall|d: ClientID| #[trigger] new_ann(store0.ops_of(d), self.store.ops_of(d)) ==> has_ann(all_ops@),
                forall|d: ClientID|
                    !has_op_among(exported@, keys@.take(ki as int), d) ==> #[trigger] self.store.ops_of(d)
                        == store0.ops_of(d),
                forall|d: ClientID| #[trigger]
                    log_end(self.store.ops_of(d)) >= log_end(store0.ops_of(d)),
                forall|d: ClientID|
                    filed_by_peer(exported@) && keys@.take(ki as int).contains(d) && is_run(
                        exported@[d]@,
                        d,
                        log_end(store0.ops_of(d)),
                    ) ==> #[trigger] log_end(self.store.ops_of(d)) == run_end(
                        exported@[d]@,
                        log_end(store0.ops_of(d)),
                    ),
            decreases keys@.len() - ki,
        {
            let c = keys[ki];
            proof {
                assert(keys@.to_set().contains(c));
                assert(!keys@.take(ki as int).contains(c)) by {
                    if keys@.take(ki as int).contains(c) {
                        let x = choose|x: int| 0 <= x < ki && keys@[x] == c;
                        assert(keys@[x] == keys@[ki as int]);
                    }
                }
                assert(keys@.take(ki as int + 1) =~= keys@.take(ki as int).push(c));
                if filed_by_peer(exported@) {
                    assert(!has_op_among(exported@, keys@.take(ki as int), c)) by {
                        if has_op_among(exported@, keys@.take(ki as int), c) {
                            let (x, y) = choose|x: int, y: int|
                                0 <= x < keys@.take(ki as int).len() && exported@.contains_key(keys@.take(ki as int)[x])
                                    && 0 <= y < exported@[keys@.take(ki as int)[x]]@.len()
                                    && #[trigger] exported@[keys@.take(ki as int)[x]]@[y].id.client == c;
                            assert(exported@[keys@[x]]@[y].id.client == keys@[x]);
                        }
                    }
                }
            }
            let ops = fx_map_get(&exported, c).unwrap();
            proof {
                assert(exported@.contains_key(c));
            }
            let ghost e0 = log_end(store0.ops_of(c));
            let ghost before = self.store;
            let mut j: usize = 0;
            while j < ops.len()
                invariant
                    self.wf(),
                    self.store.client == store0.client,
                    ops@ == exported@[c]@,
                    0 <= j <= ops@.len(),
                    self.ann == old(self).ann,
                    forall|d: ClientID| #[trigger] self.store.ops_of(d).len() >= store0.ops_of(d).len(),
                    forall|d: ClientID| #[trigger] new_ann(store0.ops_of(d), self.store.ops_of(d)) ==> has_ann(all_ops@),
                    forall|d: ClientID|
                        !has_op_in(ops@.take(j as int), d) ==> #[trigger] self.store.ops_of(d) == before.ops_of(d),
                    forall|d: ClientID| #[trigger] log_end(self.store.ops_of(d)) >= log_end(before.ops_of(d)),
                    filed_by_peer(exported@) ==> log_end(before.ops_of(c)) == e0,
                    filed_by_peer(exported@) && is_run(ops@, c, e0) ==> log_end(self.store.ops_of(c))
                        == run_end(ops@.take(j as int), e0),
                decreases ops@.len() - j,
            {
                let op = &ops[j];
                proof {
                    assert(ops@.take(j as int + 1) =~= ops@.take(j as int).push(*op));
                    if is_run(ops@, c, e0) {
                        assert(op_wf(ops@[j as int]));
                        if j > 0 {
                            assert(ops@.take(j as int).last() == ops@[j - 1]);
                        }
                    }
                }
                if op_wf_exec(op) {
                    match self.store.can_apply(op) {
                        CanApply::Yes => {
                            let ghost sb = self.store;
                            let ghost ao = all_ops@;
                            self.store.insert(op.clone());
                            all_ops.push(op.clone());
                            proof {
                                lemma_store_step_ann(sb, self.store, *op, store0, ao, all_ops@);
                            }
                        },
                        CanApply::Trim(t) => {
                            let o2 = op.slice(t as usize, op.rle_len());
                            proof {
                                lemma_slice_wf(*op, t as int, crate::op::op_len(*op) as int, o2);
                            }
                            let ghost sb = self.store;
                            let ghost ao = all_ops@;
                            self.store.insert(o2.clone());
                            all_ops.push(o2);
                            proof {
                                lemma_store_step_ann(sb, self.store, o2, store0, ao, all_ops@);
                            }
                        },
                        CanApply::Pending => {
                            self.pending_ops.push(op.clone());
                        },
                        CanApply::Seen => {},
                    }
                }
                proof {
                    assert forall|d: ClientID| !has_op_in(ops@.take(j as int + 1), d) implies #[trigger] self.store.ops_of(d)
                        == before.ops_of(d) by {
                        assert(ops@.take(j as int + 1)[j as int] == *op);
                        assert(!has_op_in(ops@.take(j as int), d)) by {
                            if has_op_in(ops@.take(j as int), d) {
                                let y = choose|y: int| 0 <= y < ops@.take(j as int).len() && #[trigger] ops@.take(j as int)[y].id.client == d;
                                assert(ops@.take(j as int + 1)[y] == ops@.take(j as int)[y]);
                                assert(ops@.take(j as int + 1)[y].id.client == d);
                            }
                        }
                    }
                    if is_run(ops@, c, e0) {
                        assert(ops@.take(j as int + 1).last() == ops@[j as int]);
                    }
                }
                j = j + 1;
            }
            proof {
                assert(ops@.take(j as int) =~= ops@);
                assert forall|d: ClientID|
                    !has_op_among(exported@, keys@.take(ki as int + 1), d) implies #[trigger] self.store.ops_of(d)
                        == store0.ops_of(d) by {
                    assert(keys@.take(ki as int + 1)[ki as int] == c);
                    assert(!has_op_in(ops@, d)) by {
                        if has_op_in(ops@, d) {
                            let y = choose|y: int| 0 <= y < ops@.len() && #[trigger] ops@[y].id.client == d;
                            assert(exported@[keys@.take(ki as int + 1)[ki as int]]@[y].id.client == d);
                        }
                    }
                    assert(!has_op_among(exported@, keys@.take(ki as int), d)) by {
                        if has_op_among(exported@, keys@.take(ki as int), d) {
                            let (x, y) = choose|x: int, y: int|
                                0 <= x < keys@.take(ki as int).len() && exported@.contains_key(keys@.take(ki as int)[x])
                                    && 0 <= y < exported@[keys@.take(ki as int)[x]]@.len()
                                    && #[trigger] exported@[keys@.take(ki as int)[x]]@[y].id.client == d;
                            assert(keys@.take(ki as int + 1)[x] == keys@.take(ki as int)[x]);
                        }
                    }
                }
                assert forall|d: ClientID|
                    filed_by_peer(exported@) && keys@.take(ki as int + 1).contains(d) && is_run(
                        exported@[d]@,
                        d,
                        log_end(store0.ops_of(d)),
                    ) implies #[trigger] log_end(self.store.ops_of(d)) == run_end(
                        exported@[d]@,
                        log_end(store0.ops_of(d)),
                    ) by {
                    if d != c {
                        assert(keys@.take(ki as int).contains(d));
                        assert(!has_op_in(ops@, d)) by {
                            if has_op_in(ops@, d) {
                                let y = choose|y: int| 0 <= y < ops@.len() && #[trigger] ops@[y].id.client == d;
                                assert(exported@[c]@[y].id.client == c);
                            }
                        }
                    }
                }
            }
            ki = ki + 1;
        }
        proof {
            assert(keys@.take(keys@.len() as int) =~= keys@);
        }
        let ghost store1 = self.store;
        let ghost ao = all_ops@;
        let ghost a0 = self.annotations().len();
        let sorted = sort_by_lamport(all_ops);
        assert(has_ann(ao) ==> has_ann(sorted@)) by {
            if has_ann(ao) {
                broadcast use vstd::seq_lib::group_to_multiset_ensures;
                let k = choose|k: int| 0 <= k < ao.len() && (#[trigger] ao[k]).content is Ann;
                assert(ao.contains(ao[k]));
                assert(sorted@.to_multiset().count(ao[k]) > 0);
                assert(sorted@.contains(ao[k]));
                let x = choose|x: int| 0 <= x < sorted@.len() && sorted@[x] == ao[k];
                assert(sorted@[x].content is Ann);
            }
        }
        let mut i: usize = 0;
        while i < sorted.len()
            invariant
                self.wf(),
                self.store == store1,
                self.annotations().len() >= a0,
                0 <= i <= sorted@.len(),
                (exists|k: int| 0 <= k < i && (#[trigger] sorted@[k]).content is Ann) ==> self.annotations().len()
                    > a0 || self.annotations().len() + 3 >= i32::MAX,
            decreases sorted@.len() - i,
        {
            let ghost la = self.annotations().len();
            if !is_delete(&sorted[i]) {
                self.apply(&sorted[i]);
            }
            proof {
                if exists|k: int| 0 <= k < i + 1 && (#[trigger] sorted@[k]).content is Ann {
                    let k = choose|k: int| 0 <= k < i + 1 && (#[trigger] sorted@[k]).content is Ann;
                    if k < i {
                        assert(exists|k: int| 0 <= k < i && (#[trigger] sorted@[k]).content is Ann);
                    }
                }
            }
            i = i + 1;
        }
        let ghost ann1 = self.annotations();
        let mut i: usize = 0;
        while i < sorted.len()
            invariant
                self.wf(),
                self.store == store1,
                self.annotations() == ann1,
            decreases sorted@.len() - i,
        {
            if is_delete(&sorted[i]) {
                self.apply(&sorted[i]);
            }
            i = i + 1;
        }
        proof {
            if exists|c: ClientID| #[trigger] new_ann(old(self).history(c), self.history(c)) {
                let c = choose|c: ClientID| #[trigger] new_ann(old(self).history(c), self.history(c));
                assert(new_ann(store0.ops_of(c), store1.ops_of(c)));
                assert(has_ann(sorted@));
            }
            assert(keys@.to_set().contains(keys@[0]));
            assert(exported@.dom().contains(keys@[0]));
            assert forall|c: ClientID| !has_op_of(exported@, c) implies #[trigger] self.history(c)
                == old(self).history(c) by {
                assert(!has_op_among(exported@, keys@, c)) by {
                    if has_op_among(exported@, keys@, c) {
                        let (x, y) = choose|x: int, y: int|
                            0 <= x < keys@.len() && exported@.contains_key(keys@[x])
                                && 0 <= y < exported@[keys@[x]]@.len()
                                && #[trigger] exported@[keys@[x]]@[y].id.client == c;
                        assert(has_op_of(exported@, c));
                    }
                }
            }
            assert forall|c: ClientID|
                filed_by_peer(exported@) && exported@.contains_key(c) && is_run(exported@[c]@, c, old(self).history_end(c))
                    implies #[trigger] self.history_end(c) == run_end(
                    exported@[c]@,
                    old(self).history_end(c),
                ) by {
                assert(keys@.to_set().contains(c));
            }
        }
    }

    /// For each peer, the counter right after its stored history.
    pub fn version(&self) -> (v: VersionVector)
        requires
            self.wf(),
        ensures
            forall|c: ClientID| #[trigger] v.spec_get(c) == self.history_end(c),
    {
        let v = self.store.vv();
        proof {
            assert forall|c: ClientID| #[trigger] v.spec_get(c) == self.history_end(c) by {
                if !self.store.map@.contains_key(c) {
                    assert(!v.view().contains_key(c));
                }
            }
        }
        v
    }

    /// The operations that a peer which knows `vv` is missing, peer by peer
    /// (see [`OpStore::export`]).
    pub fn export_ops(&self, vv: &VersionVector) -> (r: FxHashMap<ClientID, Vec<Op>>)
        requires
            self.wf(),
        ensures
            forall|c: ClientID| #[trigger]
                r@.contains_key(c) <==> vv.spec_get(c) < self.history_end(c),
            forall|c: ClientID| #[trigger]
                r@.contains_key(c) ==> is_run(r@[c]@, c, vv.spec_get(c) as int) && run_end(
                    r@[c]@,
                    vv.spec_get(c) as int,
                ) == self.history_end(c),
    {
        let r = self.store.export(vv);
        proof {
            assert forall|c: ClientID| #[trigger]
                r@.contains_key(c) <==> vv.spec_get(c) < self.history_end(c) by {
                if !self.store.map@.contains_key(c) {
                    assert(self.store.ops_of(c) == Seq::<Op>::empty());
                }
            }
            assert forall|c: ClientID| #[trigger] r@.contains_key(c) implies is_run(
                r@[c]@,
                c,
                vv.spec_get(c) as int,
            ) && run_end(r@[c]@, vv.spec_get(c) as int) == self.history_end(c) by {
                assert(log_wf(self.store.map@[c]@, c));
                lemma_export_is_run(self.store.ops_of(c), c, vv.spec_get(c) as int, r@[c]@);
            }
        }
        r
    }

    /// Merges the operations of `other` that this document is missing: after
    /// it, the history of every peer reaches as far as the longer of the two,
    /// and a newly stored annotation operation is applied (the annotation
    /// table grows, unless it is full).
    pub fn merge(&mut self, other: &Self)
        requires
            old(self).wf(),
            other.wf(),
        ensures
            final(self).wf(),
            final(self).client() == old(self).client(),
            forall|c: ClientID| #[trigger] final(self).history_end(c) == if other.history_end(c)
                > old(self).history_end(c) {
                other.history_end(c)
            } else {
                old(self).history_end(c)
            },
            (forall|c: ClientID| #[trigger] other.history_end(c) <= old(self).history_end(c))
                ==> *final(self) == *old(self),
            final(self).annotations().len() >= old(self).annotations().len(),
            (exists|c: ClientID| #[trigger] new_ann(old(self).history(c), final(self).history(c)))
                && final(self).annotations().len() + 3 < i32::MAX ==> final(self).annotations().len()
                > old(self).annotations().len(),
    {
        let vv = self.version();
        let exported = other.export_ops(&vv);
        proof {
            if forall|c: ClientID| #[trigger] other.history_end(c) <= self.history_end(c) {
                assert(exported@.dom() =~= Set::<ClientID>::empty());
            }
            assert forall|c: ClientID, i: int|
                exported@.contains_key(c) && 0 <= i < exported@[c]@.len() implies #[trigger] exported@[c]@[i].id.client
                    == c by {
                assert(is_run(exported@[c]@, c, vv.spec_get(c) as int));
            }
            assert(filed_by_peer(exported@));
        }
        let ghost ex = exported@;
        self.import_ops(exported);
        proof {
            assert forall|c: ClientID| #[trigger] self.history_end(c) == if other.history_end(c)
                > old(self).history_end(c) {
                other.history_end(c)
            } else {
                old(self).history_end(c)
            } by {
                if ex.contains_key(c) {
                } else {
                    assert(!has_op_of(ex, c)) by {
                        if has_op_of(ex, c) {
                            let (k, i) = choose|k: ClientID, i: int|
                                ex.contains_key(k) && 0 <= i < ex[k]@.len() && #[trigger] ex[k]@[i].id.client == c;
                            assert(ex[k]@[i].id.client == k);
                        }
                    }
                    assert(self.history(c) == old(self).history(c));
                }
            }
        }
    }
}

/// Whether the operation is a deletion.
fn is_delete(op: &Op) -> (b: bool)
    ensures
        b == (op.content is Del),
{
    match &op.content {
        OpContent::Del(_) => true,
        _ => false,
    }
}

/// Whether `after` holds an annotation operation past the length of
/// `before`.
pub open spec fn new_ann(before: Seq<Op>, after: Seq<Op>) -> bool {
    exists|x: int| before.len() <= x < after.len() && (#[trigger] after[x]).content is Ann
}

/// Whether `s` holds an annotation operation.
pub open spec fn has_ann(s: Seq<Op>) -> bool {
    exists|k: int| 0 <= k < s.len() && (#[trigger] s[k]).content is Ann
}

/// Storing `op` leaves the operations before `len0` alone and adds no
/// annotation but `op` itself.
proof fn lemma_recorded_ann(before: Seq<Op>, after: Seq<Op>, op: Op, base: Seq<Op>)
    requires
        recorded(before, after, op),
        base.len() <= before.len(),
    ensures
        after.len() >= before.len(),
        new_ann(base, after) ==> new_ann(base, before) || op.content is Ann,
{
    if new_ann(base, after) {
        let x = choose|x: int| base.len() <= x < after.len() && (#[trigger] after[x]).content is Ann;
        if before.len() > 0 && crate::op::spec_store_merges(before.last(), op) {
            assert(after.drop_last()[x] == after[x] || x == after.len() - 1);
            if x < after.len() - 1 {
                assert(before.drop_last()[x] == before[x]);
                assert(after.drop_last()[x] == after[x]);
            }
        } else {
            if x < before.len() {
                assert(after[x] == before[x]);
            }
        }
    }
}

/// One stored operation, also listed as taken, keeps every new annotation
/// operation of the store listed.
proof fn lemma_store_step_ann(sb: OpStore, sa: OpStore, op: Op, s0: OpStore, ao: Seq<Op>, ao2: Seq<Op>)
    requires
        forall|c: ClientID| c != op.id.client ==> #[trigger] sa.ops_of(c) == sb.ops_of(c),
        recorded(sb.ops_of(op.id.client), sa.ops_of(op.id.client), op),
        forall|d: ClientID| #[trigger] sb.ops_of(d).len() >= s0.ops_of(d).len(),
        forall|d: ClientID| #[trigger] new_ann(s0.ops_of(d), sb.ops_of(d)) ==> has_ann(ao),
        ao2 == ao.push(op),
    ensures
        forall|d: ClientID| #[trigger] sa.ops_of(d).len() >= s0.ops_of(d).len(),
        forall|d: ClientID| #[trigger] new_ann(s0.ops_of(d), sa.ops_of(d)) ==> has_ann(ao2),
{
    let c = op.id.client;
    assert(sb.ops_of(c).len() >= s0.ops_of(c).len());
    lemma_recorded_ann(sb.ops_of(c), sa.ops_of(c), op, s0.ops_of(c));
    assert forall|d: ClientID| #[trigger] sa.ops_of(d).len() >= s0.ops_of(d).len() by {
        assert(sb.ops_of(d).len() >= s0.ops_of(d).len());
    }
    assert forall|d: ClientID| #[trigger] new_ann(s0.ops_of(d), sa.ops_of(d)) implies has_ann(ao2) by {
        if op.content is Ann {
            assert(ao2[ao.len() as int] == op);
        } else {
            if d != c {
                assert(sa.ops_of(d) == sb.ops_of(d));
            }
            assert(has_ann(ao));
            let k = choose|k: int| 0 <= k < ao.len() && (#[trigger] ao[k]).content is Ann;
            assert(ao2[k] == ao[k]);
        }
    }
}

/// Whether every operation of `m` is filed under its own peer.
pub open spec fn filed_by_peer(m: Map<ClientID, Vec<Op>>) -> bool {
    forall|c: ClientID, i: int|
        m.contains_key(c) && 0 <= i < m[c]@.len() ==> #[trigger] m[c]@[i].id.client == c
}

/// Whether some operation of `m` belongs to peer `d`.
pub open spec fn has_op_of(m: Map<ClientID, Vec<Op>>, d: ClientID) -> bool {
    exists|c: ClientID, i: int| m.contains_key(c) && 0 <= i < m[c]@.len() && #[trigger] m[c]@[i].id.client == d
}

/// Whether some operation filed under one of `keys` in `m` belongs to peer `d`.
pub open spec fn has_op_among(m: Map<ClientID, Vec<Op>>, keys: Seq<ClientID>, d: ClientID) -> bool {
    exists|x: int, y: int|
        0 <= x < keys.len() && m.contains_key(keys[x]) && 0 <= y < m[keys[x]]@.len()
            && #[trigger] m[keys[x]]@[y].id.client == d
}

/// Whether some operation of `ops` belongs to peer `d`.
pub open spec fn has_op_in(ops: Seq<Op>, d: ClientID) -> bool {
    exists|y: int| 0 <= y < ops.len() && #[trigger] ops[y].id.client == d
}

/// The characters of the spans, in order.
pub open spec fn spans_text(s: Seq<Span>) -> Seq<char>
    decreases s.len(),
{
    if s.len() == 0 {
        Seq::empty()
    } else {
        spans_text(s.drop_last()) + s.last().insert@
    }
}

/// The attribute is the type and value of a registered annotation that does
/// not delete its style.
pub open spec fn attr_registered(a: (String, serde_json::Value), anns: Seq<Arc<Annotation>>) -> bool {
    exists|x: int|
        0 < x < anns.len() && (#[trigger] anns[x]).type_@ == a.0@ && anns[x].value == a.1
            && anns[x].behavior != Behavior::Delete
}

/// Every attribute is registered (see [`attr_registered`]).
pub open spec fn attrs_registered(
    attrs: Seq<(String, serde_json::Value)>,
    anns: Seq<Arc<Annotation>>,
) -> bool {
    forall|i: int| 0 <= i < attrs.len() ==> #[trigger] attr_registered(attrs[i], anns)
}

/// Sets attribute `k` to `v`, replacing an attribute of the same type.
fn set_attr(
    out: &mut Vec<(String, serde_json::Value)>,
    k: String,
    v: serde_json::Value,
    Ghost(anns): Ghost<Seq<Arc<Annotation>>>,
)
    requires
        attrs_registered(old(out)@, anns),
        attr_registered((k, v), anns),
    ensures
        attrs_registered(final(out)@, anns),
        final(out)@ == attrs_put(old(out)@, k, v),
{
    let ghost old_out = out@;
    match find_key(out, k.as_str()) {
        Some(i) => {
            out.set(i, (k, v));
        },
        None => {
            out.push((k, v));
        },
    }
    proof {
        assert forall|j: int| 0 <= j < out@.len() implies #[trigger] attr_registered(
            out@[j],
            anns,
        ) by {
            if j < old_out.len() && out@[j] == old_out[j] {
                assert(attr_registered(old_out[j], anns));
            }
        }
    }
}

/// The attributes in effect for the active annotations of `calc`: of the
/// competing annotations the winner (see [`StyleCalculator::calc_styles`]),
/// unless it deletes its style.
fn attrs_of(calc: &StyleCalculator, manager: &AnnManager) -> (r: Vec<(String, serde_json::Value)>)
    requires
        calc.wf(),
        forall|x: i32| #[trigger] calc.inner@.contains(x) ==> x < manager.idx_to_ann.len(),
    ensures
        attrs_registered(r@, manager.idx_to_ann@),
        exists|w: Seq<Arc<Annotation>>|
            winners_of(w, calc.inner@, manager.idx_to_ann@) && r@ == shown_styles(w),
{
    let winners = calc.calc_styles(manager);
    let mut out: Vec<(String, serde_json::Value)> = Vec::new();
    let mut i: usize = 0;
    proof {
        assert(winners@.take(0) =~= Seq::<Arc<Annotation>>::empty());
    }
    while i < winners.len()
        invariant
            0 <= i <= winners@.len(),
            attrs_registered(out@, manager.idx_to_ann@),
            out@ == shown_styles(winners@.take(i as int)),
            calc.wf(),
            forall|j: int|
                #![trigger winners@[j]]
                0 <= j < winners@.len() ==> is_active(*winners@[j], calc.inner@, *manager),
            forall|x: i32| #[trigger] calc.inner@.contains(x) ==> x < manager.idx_to_ann.len(),
        decreases winners@.len() - i,
    {
        let w = &winners[i];
        proof {
            assert(winners@.take(i as int + 1).drop_last() =~= winners@.take(i as int));
            assert(winners@.take(i as int + 1).last() == winners@[i as int]);
        }
        if w.behavior != Behavior::Delete {
            proof {
                assert(is_active(*winners@[i as int], calc.inner@, *manager));
                let x = choose|x: i32| #[trigger]
                    calc.inner@.contains(x) && *winners@[i as int] == *manager.idx_to_ann@[x as int];
                assert(crate::ann::idx_set_wf(calc.inner@));
                assert(0 < x < manager.idx_to_ann.len());
                assert(manager.idx_to_ann@[x as int].type_@ == w.type_@);
                assert(attr_registered((w.type_, w.value), manager.idx_to_ann@));
            }
            set_attr(&mut out, w.type_.clone(), json_clone(&w.value), Ghost(manager.idx_to_ann@));
        }
        i = i + 1;
    }
    proof {
        assert(winners@.take(winners@.len() as int) =~= winners@);
        assert forall|j: int| 0 <= j < winners@.len() implies active_in(
            *(#[trigger] winners@[j]),
            calc.inner@,
            manager.idx_to_ann@,
        ) by {
            assert(is_active(*winners@[j], calc.inner@, *manager));
        }
        assert(winners_of(winners@, calc.inner@, manager.idx_to_ann@));
    }
    out
}

/// `b` holds the type of `x` with an equal value.
pub open spec fn has_match(b: Seq<(String, serde_json::Value)>, x: (String, serde_json::Value)) -> bool {
    exists|j: int| 0 <= j < b.len() && (#[trigger] b[j]).0@ == x.0@ && json_values_equal(b[j].1, x.1)
}

/// `a` holds as many styles as `b`, each of a type that `b` holds with a
/// JSON-equal value (what decides that two spans are joined).
pub open spec fn attrs_similar(a: Seq<(String, serde_json::Value)>, b: Seq<(String, serde_json::Value)>) -> bool {
    a.len() == b.len() && forall|i: int| 0 <= i < a.len() ==> #[trigger] has_match(b, a[i])
}

/// Neighbouring spans do not have similar attributes (see
/// [`attrs_similar`]): every span is as long as it can be.
pub open spec fn spans_maximal(r: Seq<Span>) -> bool {
    forall|i: int| 0 <= i < r.len() - 1 ==> !attrs_similar(#[trigger] r[i].attributes@, r[i + 1].attributes@)
}

/// Whether two attribute lists hold the same types with equal values.
fn attrs_equal(a: &Vec<(String, serde_json::Value)>, b: &Vec<(String, serde_json::Value)>) -> (r: bool)
    ensures
        r == (a@.len() == b@.len() && forall|i: int|
            0 <= i < a@.len() ==> #[trigger] has_match(b@, a@[i])),
{
    if a.len() != b.len() {
        return false;
    }
    let mut i: usize = 0;
    while i < a.len()
        invariant
            a@.len() == b@.len(),
            0 <= i <= a@.len(),
            forall|t: int| 0 <= t < i ==> #[trigger] has_match(b@, a@[t]),
        decreases a@.len() - i,
    {
        let mut j: usize = 0;
        let mut found = false;
        while j < b.len()
            invariant
                0 <= j <= b@.len(),
                i < a@.len(),
                !found ==> forall|u: int|
                    0 <= u < j ==> !((#[trigger] b@[u]).0@ == a@[i as int].0@ && json_values_equal(
                        b@[u].1,
                        a@[i as int].1,
                    )),
                found ==> has_match(b@, a@[i as int]),
            decreases b@.len() - j,
        {
            if !found && str_eq(b[j].0.as_str(), a[i].0.as_str()) && json_eq(&b[j].1, &a[i].1) {
                found = true;
            }
            j = j + 1;
        }
        if !found {
            proof {
                assert(!has_match(b@, a@[i as int]));
            }
            return false;
        }
        i = i + 1;
    }
    true
}

/// The seam of two valid UTF-8 sequences is a character boundary of their
/// concatenation.
pub proof fn lemma_concat_boundary(a: Seq<u8>, b: Seq<u8>)
    requires
        valid_utf8(a),
        valid_utf8(b),
    ensures
        is_char_boundary(a + b, a.len() as int),
{
    lemma_text_of_concat(a, b);
    if b.len() == 0 {
        assert(a + b =~= a);
        is_char_boundary_start_end_of_seq(a);
    } else {
        is_char_boundary_start_end_of_seq(b);
        is_char_boundary_iff_not_is_continuation_byte(b, 0);
        is_char_boundary_iff_not_is_continuation_byte(a + b, a.len() as int);
        assert((a + b)[a.len() as int] == b[0]);
    }
}

/// The start of every element is a character boundary of the text.
pub proof fn lemma_elem_boundary(s: Seq<Elem>, k: int)
    requires
        forall|i: int| 0 <= i < s.len() ==> (#[trigger] s[i]).wf(),
        0 <= k <= s.len(),
    ensures
        is_char_boundary(text_of_elems(s), text_of_elems(s.take(k)).len() as int),
{
    assert(s =~= s.take(k) + s.skip(k));
    lemma_text_concat(s.take(k), s.skip(k));
    assert forall|i: int| 0 <= i < s.take(k).len() implies (#[trigger] s.take(k)[i]).wf() by {
        assert(s.take(k)[i] == s[i]);
    }
    assert forall|i: int| 0 <= i < s.skip(k).len() implies (#[trigger] s.skip(k)[i]).wf() by {
        assert(s.skip(k)[i] == s[k + i]);
    }
    lemma_text_valid(s.take(k));
    lemma_text_valid(s.skip(k));
    lemma_concat_boundary(text_of_elems(s.take(k)), text_of_elems(s.skip(k)));
}

/// `x` clamped to `lo..=hi`.
pub open spec fn clamp(x: int, lo: int, hi: int) -> int {
    if x < lo {
        lo
    } else if x > hi {
        hi
    } else {
        x
    }
}

/// Decoding a valid text cut at three character boundaries.
pub proof fn lemma_text_of_three(t: Seq<u8>, i: int, j: int, k: int)
    requires
        valid_utf8(t),
        0 <= i <= j <= k <= t.len(),
        is_char_boundary(t, i),
        is_char_boundary(t, j),
        is_char_boundary(t, k),
    ensures
        text_of(t.subrange(i, k)) == text_of(t.subrange(i, j)) + text_of(t.subrange(j, k)),
{
    crate::rich_tree::lemma_char_boundary_subrange(t, i, j);
    crate::rich_tree::lemma_char_boundary_subrange(t, j, k);
    lemma_text_of_concat(t.subrange(i, j), t.subrange(j, k));
    assert(t.subrange(i, k) =~= t.subrange(i, j) + t.subrange(j, k));
}

/// Appends a piece of text with its attributes to the spans, joining it to
/// the last span when the attributes are equal.
fn push_piece(
    out: &mut Vec<Span>,
    piece: &str,
    attrs: Vec<(String, serde_json::Value)>,
    Ghost(anns): Ghost<Seq<Arc<Annotation>>>,
)
    requires
        piece@.len() > 0,
        attrs_registered(attrs@, anns),
        forall|i: int| 0 <= i < old(out)@.len() ==> (#[trigger] old(out)@[i]).insert@.len() > 0,
        forall|i: int, j: int|
            0 <= i < old(out)@.len() && 0 <= j < old(out)@[i].attributes@.len()
                ==> #[trigger] attr_registered(old(out)@[i].attributes@[j], anns),
        spans_maximal(old(out)@),
    ensures
        spans_maximal(final(out)@),
        spans_text(final(out)@) == spans_text(old(out)@) + piece@,
        forall|i: int| 0 <= i < final(out)@.len() ==> (#[trigger] final(out)@[i]).insert@.len() > 0,
        forall|i: int, j: int|
            0 <= i < final(out)@.len() && 0 <= j < final(out)@[i].attributes@.len()
                ==> #[trigger] attr_registered(final(out)@[i].attributes@[j], anns),
        ({
            let n = old(out)@.len() as int;
            ||| n > 0 && final(out)@.len() == n && final(out)@.take(n - 1) == old(out)@.take(n - 1)
                && final(out)@[n - 1].attributes == old(out)@[n - 1].attributes && attrs_agree(
                old(out)@[n - 1].attributes@,
                attrs@,
            )
            ||| final(out)@.len() == n + 1 && final(out)@.take(n) == old(out)@ && final(out)@[n].attributes
                == attrs
        }),
{
    let ghost o0 = out@;
    let n = out.len();
    let same = if n > 0 {
        attrs_equal(&out[n - 1].attributes, &attrs)
    } else {
        false
    };
    {
        if same {
            let mut last = out.pop().unwrap();
            let ghost before = out@;
            last.insert.append(piece);
            out.push(last);
            proof {
                assert(out@.take(n - 1) =~= o0.take(n - 1));
                assert(out@.drop_last() =~= before);
                assert(before =~= o0.drop_last());
                assert(o0.last() == o0[n - 1]);
                assert(spans_text(out@) =~= spans_text(o0) + piece@);
                assert forall|i: int, j: int|
                    0 <= i < out@.len() && 0 <= j < out@[i].attributes@.len()
                        implies #[trigger] attr_registered(out@[i].attributes@[j], anns) by {
                    if i < n - 1 {
                        assert(out@[i] == o0[i]);
                    } else {
                        assert(out@[i].attributes == o0[n - 1].attributes);
                    }
                }
                assert forall|i: int| 0 <= i < out@.len() implies (#[trigger] out@[i]).insert@.len() > 0 by {
                    if i < n - 1 {
                        assert(out@[i] == o0[i]);
                    }
                }
                assert forall|i: int| 0 <= i < out@.len() - 1 implies !attrs_similar(
                    #[trigger] out@[i].attributes@,
                    out@[i + 1].attributes@,
                ) by {
                    assert(out@[i] == o0[i]);
                    assert(out@[i + 1].attributes == o0[i + 1].attributes);
                    assert(!attrs_similar(o0[i].attributes@, o0[i + 1].attributes@));
                }
            }
            return;
        }
    }
    out.push(Span { insert: piece.to_owned(), attributes: attrs });
    proof {
        assert(out@.take(n as int) =~= o0);
        assert(out@.drop_last() =~= o0);
        assert forall|i: int, j: int|
            0 <= i < out@.len() && 0 <= j < out@[i].attributes@.len()
                implies #[trigger] attr_registered(out@[i].attributes@[j], anns) by {
            if i < n {
                assert(out@[i] == o0[i]);
            }
        }
        assert forall|i: int| 0 <= i < out@.len() implies (#[trigger] out@[i]).insert@.len() > 0 by {
            if i < n {
                assert(out@[i] == o0[i]);
            }
        }
        assert forall|i: int| 0 <= i < out@.len() - 1 implies !attrs_similar(
            #[trigger] out@[i].attributes@,
            out@[i + 1].attributes@,
        ) by {
            assert(out@[i] == o0[i]);
            if i < n - 1 {
                assert(out@[i + 1] == o0[i + 1]);
                assert(!attrs_similar(o0[i].attributes@, o0[i + 1].attributes@));
            }
        }
    }
}

/// The piece of a visible element that falls in `start..end` is valid UTF-8
/// and continues the text of the spans so far.
#[verifier::spinoff_prover]
#[verifier::rlimit(80)]
proof fn lemma_span_step(s: Seq<Elem>, t: Seq<u8>, k: int, start: int, end: int, a: int, b: int)
    requires
        forall|i: int| 0 <= i < s.len() ==> (#[trigger] s[i]).wf(),
        t == text_of_elems(s),
        valid_utf8(t),
        0 <= k < s.len(),
        !s[k].status.spec_is_dead(),
        start < end <= t.len(),
        is_char_boundary(t, start),
        is_char_boundary(t, end),
        text_of_elems(s.take(k)).len() + s[k].bytes().len() > start,
        text_of_elems(s.take(k)).len() < end,
        a == if start > text_of_elems(s.take(k)).len() {
            start - text_of_elems(s.take(k)).len()
        } else {
            0
        },
        b == if end < text_of_elems(s.take(k)).len() + s[k].bytes().len() {
            end - text_of_elems(s.take(k)).len()
        } else {
            s[k].bytes().len() as int
        },
    ensures
        0 <= a < b <= s[k].bytes().len(),
        valid_utf8(s[k].bytes().subrange(a, b)),
        ({
            let p0 = text_of_elems(s.take(k)).len() as int;
            let l = s[k].bytes().len() as int;
            text_of(t.subrange(start, clamp(p0 + l, start, end))) == text_of(
                t.subrange(start, clamp(p0, start, end)),
            ) + text_of(s[k].bytes().subrange(a, b))
        }),
{
    let p0 = text_of_elems(s.take(k)).len() as int;
    let bs = s[k].bytes();
    let l = bs.len() as int;
    lemma_text_split_at(s, k);
    lemma_text_concat(s.take(k + 1), s.skip(k + 1));
    assert(s =~= s.take(k + 1) + s.skip(k + 1));
    assert(bs =~= t.subrange(p0, p0 + l));
    lemma_elem_boundary(s, k);
    lemma_elem_boundary(s, k + 1);
    lemma_piece_boundaries(t, p0, l, bs, a, b, start, end);
    crate::rich_tree::lemma_char_boundary_subrange(bs, a, b);
    assert(bs.subrange(a, b) =~= t.subrange(p0 + a, p0 + b));
    lemma_text_of_three(t, start, clamp(p0, start, end), clamp(p0 + l, start, end));
}

/// Every byte of a visible element is held by that element.
proof fn lemma_holds_in_elem(s: Seq<Elem>, k: int, p: int)
    requires
        0 <= k < s.len(),
        !s[k].status.spec_is_dead(),
        text_of_elems(s.take(k)).len() <= p < text_of_elems(s.take(k)).len() + s[k].bytes().len(),
    ensures
        holds_position(s, k, p),
{
    lemma_text_split_at(s, k);
    assert forall|j: int| 0 <= j < k implies !((#[trigger] s[j]).visible().len() > 0 && p
        < text_of_elems(s.take(j + 1)).len()) by {
        lemma_prefix_len_mono(s, j + 1, k);
    }
}

/// Adding a piece whose bytes all show the attributes of the winners `w`
/// (joined to the last span or as a span of its own, see [`push_piece`])
/// keeps every span showing its attributes.
#[verifier::rlimit(80)]
#[verifier::spinoff_prover]
proof fn lemma_spans_show_step(
    t: RichText,
    out0: Seq<Span>,
    out1: Seq<Span>,
    piece: Seq<char>,
    attrs: Seq<(String, serde_json::Value)>,
    start: int,
    k: int,
    w: Seq<Arc<Annotation>>,
)
    requires
        spans_show(t, out0, start),
        spans_text(out1) == spans_text(out0) + piece,
        ({
            let n = out0.len() as int;
            ||| n > 0 && out1.len() == n && out1.take(n - 1) == out0.take(n - 1) && out1[n - 1].attributes
                == out0[n - 1].attributes && attrs_agree(out0[n - 1].attributes@, attrs)
            ||| out1.len() == n + 1 && out1.take(n) == out0 && out1[n].attributes@ == attrs
        }),
        winners_of(w, active_at(t.elems(), t.init_active(), k), t.annotations()),
        attrs == shown_styles(w),
        forall|p: int|
            start + spans_bytes_before(out0, out0.len() as int) <= p < start + spans_bytes_before(
                out0,
                out0.len() as int,
            ) + encode_utf8(piece).len() ==> holds_position(t.elems(), k, p),
    ensures
        spans_show(t, out1, start),
        spans_bytes_before(out1, out1.len() as int) == spans_bytes_before(out0, out0.len() as int)
            + encode_utf8(piece).len(),
{
    let n = out0.len() as int;
    assert(out0.take(n) =~= out0);
    assert(out1.take(out1.len() as int) =~= out1);
    crate::utf16::lemma_encode_utf8_concat(spans_text(out0), piece);
    let lo = start + spans_bytes_before(out0, n);
    let hi = lo + encode_utf8(piece).len();
    assert forall|i: int, p: int|
        0 <= i < out1.len() && start + spans_bytes_before(out1, i) <= p < start + spans_bytes_before(
            out1,
            i + 1,
        ) implies #[trigger] shows_at(t, p, out1[i].attributes@) by {
        if out1.len() == n + 1 && out1.take(n) == out0 && out1[n].attributes@ == attrs {
            if i < n {
                assert(out1.take(i) =~= out0.take(i));
                assert(out1.take(i + 1) =~= out0.take(i + 1));
                assert(out1[i] == out0[i]);
                assert(shows_at(t, p, out0[i].attributes@));
            } else {
                assert(out1.take(i) =~= out0);
                assert(holds_position(t.elems(), k, p));
                assert(attrs_agree(out1[i].attributes@, shown_styles(w)));
            }
        } else {
            assert(out1.len() == n);
            if i < n - 1 {
                assert(out1.take(i) =~= out1.take(n - 1).take(i));
                assert(out0.take(i) =~= out0.take(n - 1).take(i));
                assert(out1.take(i + 1) =~= out1.take(n - 1).take(i + 1));
                assert(out0.take(i + 1) =~= out0.take(n - 1).take(i + 1));
                assert(out1[i] == out1.take(n - 1)[i]);
                assert(out0[i] == out0.take(n - 1)[i]);
                assert(shows_at(t, p, out0[i].attributes@));
            } else {
                assert(i == n - 1);
                assert(out1.take(i + 1) =~= out1);
                if p < lo {
                    assert(shows_at(t, p, out0[i].attributes@));
                } else {
                    assert(holds_position(t.elems(), k, p));
                    assert(attrs_agree(out1[i].attributes@, shown_styles(w)));
                }
            }
        }
    }
}

impl RichText {
    /// The spans of the text bytes `start..end`: runs of text with the
    /// attributes in effect, neighbouring runs with equal attributes joined.
    #[verifier::rlimit(100)]
    #[verifier::spinoff_prover]
    pub fn spans_in(&self, start: usize, end: usize) -> (r: Vec<Span>)
        requires
            self.wf(),
            start <= end <= self.text().len(),
            is_char_boundary(self.text(), start as int),
            is_char_boundary(self.text(), end as int),
        ensures
            spans_text(r@) == text_of(self.text().subrange(start as int, end as int)),
            forall|i: int| 0 <= i < r@.len() ==> (#[trigger] r@[i]).insert@.len() > 0,
            forall|i: int, j: int|
                0 <= i < r@.len() && 0 <= j < r@[i].attributes@.len() ==> #[trigger] attr_registered(
                    r@[i].attributes@[j],
                    self.annotations(),
                ),
            spans_show(*self, r@, start as int),
            spans_maximal(r@),
    {
        let ghost s = self.content@;
        let ghost t = self.text();
        let ghost n_ann = self.ann.idx_to_ann.len() as int;
        let ghost init = self.init_styles.inner@;
        proof {
            self.lemma_wf_text_valid();
            assert forall|k: int| 0 <= k < s.len() implies (#[trigger] s[k]).wf() by {
                assert(elem_ok(s[k], n_ann));
            }
            assert(s.take(0) =~= Seq::<Elem>::empty());
            lemma_text_of_empty();
            assert(t.subrange(start as int, start as int) =~= Seq::<u8>::empty());
            assert(Seq::<Span>::empty().take(0) =~= Seq::<Span>::empty());
            assert(spans_text(Seq::<Span>::empty()) =~= Seq::<char>::empty());
            assert(encode_utf8(Seq::<char>::empty()) =~= Seq::<u8>::empty());
        }
        if start == end {
            return Vec::new();
        }
        let mut calc = self.init_styles.duplicate();
        let mut out: Vec<Span> = Vec::new();
        let mut pos: usize = 0;
        let mut k: usize = 0;
        while k < self.content.len()
            invariant
                self.wf(),
                s == self.content@,
                t == text_of_elems(s),
                n_ann == self.ann.idx_to_ann.len(),
                valid_utf8(t),
                t.len() < u32::MAX,
                forall|i: int| 0 <= i < s.len() ==> (#[trigger] s[i]).wf(),
                start < end <= t.len(),
                is_char_boundary(t, start as int),
                is_char_boundary(t, end as int),
                0 <= k <= s.len(),
                pos == text_of_elems(s.take(k as int)).len(),
                calc.wf(),
                forall|x: i32| #[trigger] calc.inner@.contains(x) ==> x < n_ann,
                init == self.init_styles.inner@,
                calc.inner@ == active_after(s.take(k as int), init),
                spans_show(*self, out@, start as int),
                spans_maximal(out@),
                start + spans_bytes_before(out@, out@.len() as int) == clamp(
                    pos as int,
                    start as int,
                    end as int,
                ),
                spans_text(out@) == text_of(
                    t.subrange(start as int, clamp(pos as int, start as int, end as int)),
                ),
                forall|i: int| 0 <= i < out@.len() ==> (#[trigger] out@[i]).insert@.len() > 0,
                forall|i: int, j: int|
                    0 <= i < out@.len() && 0 <= j < out@[i].attributes@.len()
                        ==> #[trigger] attr_registered(out@[i].attributes@[j], self.ann.idx_to_ann@),
            decreases s.len() - k,
        {
            let e = &self.content[k];
            proof {
                assert(elem_ok(s[k as int], n_ann));
                lemma_text_split_at(s, k as int);
                lemma_prefix_len_mono(s, k as int + 1, s.len() as int);
                assert(s.take(s.len() as int) =~= s);
                assert(s.take(k as int + 1).drop_last() =~= s.take(k as int));
            }
            if e.is_dead() {
                calc.apply_start(&e.anchor_set);
                calc.apply_end(&e.anchor_set);
                k = k + 1;
                continue;
            }
            let l = e.atom_len();
            calc.apply_start(&e.anchor_set);
            let ghost p0 = pos as int;
            if pos + l > start && pos < end {
                let a: usize = if start > pos {
                    start - pos
                } else {
                    0
                };
                let b: usize = if end < pos + l {
                    end - pos
                } else {
                    l
                };
                proof {
                    lemma_span_step(s, t, k as int, start as int, end as int, a as int, b as int);
                }
                let attrs = attrs_of(&calc, &self.ann);
                let ghost a0 = attrs@;
                let ghost out0 = out@;
                let ghost w = choose|w: Seq<Arc<Annotation>>|
                    winners_of(w, calc.inner@, self.ann.idx_to_ann@) && a0 == shown_styles(w);
                let raw = bytes_as_slice(&e.string);
                let piece = crate::rich_tree::slice_subrange_pub(raw, a, b);
                let piece_str = bytes_to_str(piece);
                proof {
                    assert(piece_str@.len() > 0) by {
                        if piece_str@.len() == 0 {
                            assert(encode_utf8(piece_str@) =~= Seq::<u8>::empty());
                        }
                    }
                }
                push_piece(&mut out, piece_str, attrs, Ghost(self.ann.idx_to_ann@));
                proof {
                    assert forall|p: int|
                        start + spans_bytes_before(out0, out0.len() as int) <= p < start
                            + spans_bytes_before(out0, out0.len() as int) + encode_utf8(piece_str@).len()
                            implies holds_position(s, k as int, p) by {
                        lemma_holds_in_elem(s, k as int, p);
                    }
                    lemma_spans_show_step(*self, out0, out@, piece_str@, a0, start as int, k as int, w);
                }
            } else {
                proof {
                    assert(clamp(p0 + l, start as int, end as int) == clamp(p0, start as int, end as int));
                }
            }
            calc.apply_end(&e.anchor_set);
            pos = pos + l;
            k = k + 1;
        }
        proof {
            assert(s.take(k as int) =~= s);
        }
        out
    }
}

/// The pair is the type and value of a registered annotation.
pub open spec fn pair_registered(a: (String, serde_json::Value), anns: Seq<Arc<Annotation>>) -> bool {
    exists|x: int| 0 < x < anns.len() && (#[trigger] anns[x]).type_@ == a.0@ && anns[x].value == a.1
}

impl RichText {
    /// The spans of the whole text.
    pub fn get_spans(&self) -> (r: Vec<Span>)
        requires
            self.wf(),
        ensures
            spans_text(r@) == text_of(self.text()),
            spans_show(*self, r@, 0),
            spans_maximal(r@),
            forall|i: int| 0 <= i < r@.len() ==> (#[trigger] r@[i]).insert@.len() > 0,
            forall|i: int, j: int|
                0 <= i < r@.len() && 0 <= j < r@[i].attributes@.len() ==> #[trigger] attr_registered(
                    r@[i].attributes@[j],
                    self.annotations(),
                ),
    {
        let len = self.len();
        proof {
            self.lemma_wf_text_valid();
            is_char_boundary_start_end_of_seq(self.text());
            assert(self.text().subrange(0, len as int) =~= self.text());
        }
        self.spans_in(0, len)
    }

    /// The spans of the range `start..end`, counted in `index_type`.
    pub fn slice(&self, start: usize, end: usize, index_type: IndexType) -> (r: Vec<Span>)
        requires
            self.wf(),
            start <= end,
            index_type == IndexType::Utf8 ==> end <= self.text().len() && is_char_boundary(
                self.text(),
                start as int,
            ) && is_char_boundary(self.text(), end as int),
        ensures
            spans_text(r@) == text_of(
                self.text().subrange(
                    spec_convert_index(self.text(), start as int, index_type, IndexType::Utf8),
                    spec_convert_index(self.text(), end as int, index_type, IndexType::Utf8),
                ),
            ),
            spans_show(
                *self,
                r@,
                spec_convert_index(self.text(), start as int, index_type, IndexType::Utf8),
            ),
            spans_maximal(r@),
            forall|i: int| 0 <= i < r@.len() ==> (#[trigger] r@[i]).insert@.len() > 0,
    {
        proof {
            self.lemma_wf_text_valid();
            if index_type == IndexType::Utf16 {
                lemma_offset_boundary(self.text(), start as int);
                lemma_offset_boundary(self.text(), end as int);
                lemma_offset_mono(text_of(self.text()), start as int, end as int);
            }
        }
        let a = self.convert_index(start, index_type, IndexType::Utf8);
        let b = self.convert_index(end, index_type, IndexType::Utf8);
        self.spans_in(a, b)
    }

    /// The text of the range `start..end`, counted in `index_type`.
    pub fn slice_str(&self, start: usize, end: usize, index_type: IndexType) -> (r: String)
        requires
            self.wf(),
            start <= end,
            index_type == IndexType::Utf8 ==> end <= self.text().len() && is_char_boundary(
                self.text(),
                start as int,
            ) && is_char_boundary(self.text(), end as int),
        ensures
            r@ == text_of(
                self.text().subrange(
                    spec_convert_index(self.text(), start as int, index_type, IndexType::Utf8),
                    spec_convert_index(self.text(), end as int, index_type, IndexType::Utf8),
                ),
            ),
    {
        proof {
            self.lemma_wf_text_valid();
            if index_type == IndexType::Utf16 {
                lemma_offset_boundary(self.text(), start as int);
                lemma_offset_boundary(self.text(), end as int);
                lemma_offset_mono(text_of(self.text()), start as int, end as int);
            }
        }
        let a = self.convert_index(start, index_type, IndexType::Utf8);
        let b = self.convert_index(end, index_type, IndexType::Utf8);
        let v = self.text_bytes();
        proof {
            crate::rich_tree::lemma_char_boundary_subrange(self.text(), a as int, b as int);
        }
        let part = crate::rich_tree::slice_subrange_pub(v.as_slice(), a, b);
        bytes_to_str(part).to_owned()
    }

    /// The spans of line `line`, its line break included; empty when the
    /// text has fewer lines.
    pub fn get_line(&self, line: usize) -> (r: Vec<Span>)
        requires
            self.wf(),
        ensures
            ({
                let c = text_of(self.text());
                match line_start_of(c, line as nat) {
                    None => r@.len() == 0,
                    Some(a) => spans_text(r@) == text_of(
                        self.text().subrange(
                            a as int,
                            match line_start_of(c, (line + 1) as nat) {
                                Some(b) => b as int,
                                None => self.text().len() as int,
                            },
                        ),
                    ) && spans_show(*self, r@, a as int) && spans_maximal(r@),
                }
            }),
    {
        let v = self.text_bytes();
        let len = v.len();
        proof {
            self.lemma_wf_text_valid();
        }
        let start = match line_start_to_utf8(v.as_slice(), line) {
            Some(p) => p,
            None => {
                return Vec::new();
            },
        };
        proof {
            lemma_line_start_count(text_of(self.text()), line as nat);
            lemma_encode_utf8_len_bound(text_of(self.text()));
            decode_utf8_encode_utf8(self.text());
            crate::utf16::lemma_line_breaks_le_len(text_of(self.text()));
        }
        let end = match line_start_to_utf8(v.as_slice(), line + 1) {
            Some(p) => p,
            None => len,
        };
        proof {
            let t = self.text();
            lemma_line_start_boundary(t, line as nat);
            lemma_line_start_boundary(t, (line + 1) as nat);
            is_char_boundary_start_end_of_seq(t);
            lemma_line_start_mono(text_of(t), line as nat);
        }
        self.spans_in(start, end)
    }
}

/// The start of a line is a character boundary of the text.
pub proof fn lemma_line_start_boundary(t: Seq<u8>, n: nat)
    requires
        valid_utf8(t),
    ensures
        line_start_of(text_of(t), n) matches Some(p) ==> p <= t.len() && is_char_boundary(t, p as int),
{
    let c = text_of(t);
    decode_utf8_encode_utf8(t);
    if let Some(p) = line_start_of(c, n) {
        let j = lemma_line_start_prefix(c, n);
        lemma_encoded_prefix_boundary(c, j);
    }
}

/// The start of a line is the length of the encoding of a prefix.
pub proof fn lemma_line_start_prefix(c: Seq<char>, n: nat) -> (j: int)
    requires
        line_start_of(c, n) is Some,
    ensures
        0 <= j <= c.len(),
        line_start_of(c, n) == Some(encode_utf8(c.take(j)).len()),
    decreases c.len(),
{
    if n == 0 {
        assert(c.take(0) =~= Seq::<char>::empty());
        assert(encode_utf8(Seq::<char>::empty()) =~= Seq::<u8>::empty());
        0
    } else {
        let m = if c[0] == '\n' {
            (n - 1) as nat
        } else {
            n
        };
        let j2 = lemma_line_start_prefix(c.drop_first(), m);
        let j = j2 + 1;
        assert(c.take(j).drop_first() =~= c.drop_first().take(j2));
        assert(c.take(j)[0] == c[0]);
        assert(encode_utf8(c.take(j)) == encode_scalar(c[0] as u32) + encode_utf8(c.take(j).drop_first()));
        j
    }
}

/// A line that starts exists only for a count of lines no larger than the
/// number of line breaks.
pub proof fn lemma_line_start_count(c: Seq<char>, n: nat)
    ensures
        line_start_of(c, n) is Some ==> n <= line_breaks_of(c),
    decreases c.len(),
{
    if n > 0 && c.len() > 0 {
        if c[0] == '\n' {
            lemma_line_start_count(c.drop_first(), (n - 1) as nat);
        } else {
            lemma_line_start_count(c.drop_first(), n);
        }
        crate::utf16::lemma_line_breaks_first(c);
    }
}

/// The next line starts after this one.
pub proof fn lemma_line_start_mono(c: Seq<char>, n: nat)
    ensures
        line_start_of(c, n + 1) matches Some(b) ==> (line_start_of(c, n) matches Some(a) && a <= b),
    decreases c.len(),
{
    if n > 0 && c.len() > 0 {
        if c[0] == '\n' {
            lemma_line_start_mono(c.drop_first(), (n - 1) as nat);
        } else {
            lemma_line_start_mono(c.drop_first(), n);
        }
    } else if n == 0 && c.len() > 0 {
        if c[0] == '\n' {
        } else {
            lemma_line_start_mono(c.drop_first(), 0);
        }
    }
}

/// Passing the start of element `e`: its before-anchors take effect (starts
/// first, then ends).
pub open spec fn pass_start(e: Elem, a: Set<i32>) -> Set<i32> {
    a.union(e.anchor_set.start_before@).difference(e.anchor_set.end_before@)
}

/// Passing the end of element `e`: its after-anchors take effect.
pub open spec fn pass_end(e: Elem, a: Set<i32>) -> Set<i32> {
    a.union(e.anchor_set.start_after@).difference(e.anchor_set.end_after@)
}

/// The annotation indices active once the elements `s` are passed, starting
/// from `init`.
pub open spec fn active_after(s: Seq<Elem>, init: Set<i32>) -> Set<i32>
    decreases s.len(),
{
    if s.len() == 0 {
        init
    } else {
        pass_end(s.last(), pass_start(s.last(), active_after(s.drop_last(), init)))
    }
}

/// Element `k` holds text byte `position`: it is the first element whose
/// visible text reaches past it; `k` is `s.len()` when none does.
pub open spec fn holds_position(s: Seq<Elem>, k: int, position: int) -> bool {
    &&& 0 <= k <= s.len()
    &&& forall|j: int|
        0 <= j < k ==> !((#[trigger] s[j]).visible().len() > 0 && position < text_of_elems(
            s.take(j + 1),
        ).len())
    &&& k < s.len() ==> s[k].visible().len() > 0 && position < text_of_elems(s.take(k + 1)).len()
}

/// The annotation indices in effect on the text held by element `k` (after
/// all elements when `k` is `s.len()`).
pub open spec fn active_at(s: Seq<Elem>, init: Set<i32>, k: int) -> Set<i32> {
    if k < s.len() {
        pass_start(s[k], active_after(s.take(k), init))
    } else {
        active_after(s, init)
    }
}

/// `a` is the annotation of one of the indices `inner` of `anns`.
pub open spec fn active_in(a: Annotation, inner: Set<i32>, anns: Seq<Arc<Annotation>>) -> bool {
    exists|x: i32| #[trigger] inner.contains(x) && a == *anns[x as int]
}

/// `w` are the winners among the active annotations `inner` of `anns`: each
/// winner active, no two competing, and every active annotation matched by a
/// winner that it does not beat.
pub open spec fn winners_of(w: Seq<Arc<Annotation>>, inner: Set<i32>, anns: Seq<Arc<Annotation>>) -> bool {
    &&& forall|i: int| 0 <= i < w.len() ==> active_in(*(#[trigger] w[i]), inner, anns)
    &&& crate::ann::keys_distinct(w)
    &&& forall|x: i32| #[trigger] inner.contains(x) ==> crate::ann::dominated(w, *anns[x as int])
}

/// `r` are the styles (type and value) of the winners `w` among the active
/// annotations `inner` of `anns` (see [`winners_of`]).
pub open spec fn styles_of(
    r: Seq<(String, serde_json::Value)>,
    w: Seq<Arc<Annotation>>,
    inner: Set<i32>,
    anns: Seq<Arc<Annotation>>,
) -> bool {
    &&& r.len() == w.len()
    &&& forall|i: int| 0 <= i < r.len() ==> (#[trigger] r[i]).0@ == w[i].type_@ && r[i].1 == w[i].value
    &&& winners_of(w, inner, anns)
}

/// The attributes that the winners `w` show: for each winner that does not
/// delete its style, in order, its type set to its value (a later winner of
/// the same type replacing an earlier one).
pub open spec fn shown_styles(w: Seq<Arc<Annotation>>) -> Seq<(String, serde_json::Value)>
    decreases w.len(),
{
    if w.len() == 0 {
        Seq::empty()
    } else {
        let s = shown_styles(w.drop_last());
        if w.last().behavior == Behavior::Delete {
            s
        } else {
            attrs_put(s, w.last().type_, w.last().value)
        }
    }
}

/// The attributes `sa` agree with the shown attributes `v`: they are `v`, or
/// they hold as many styles, each of a type that `v` holds with a JSON-equal
/// value.
pub open spec fn attrs_agree(sa: Seq<(String, serde_json::Value)>, v: Seq<(String, serde_json::Value)>) -> bool {
    ||| sa == v
    ||| sa.len() == v.len() && forall|i: int| 0 <= i < sa.len() ==> #[trigger] has_match(v, sa[i])
}

/// The attributes `sa` agree with those shown on the character at text byte
/// `position` of `t`: the attributes of the winners among the annotations
/// active on the element that holds it (see [`shown_styles`]).
pub open spec fn shows_at(t: RichText, position: int, sa: Seq<(String, serde_json::Value)>) -> bool {
    exists|k: int, w: Seq<Arc<Annotation>>|
        holds_position(t.elems(), k, position) && winners_of(
            w,
            active_at(t.elems(), t.init_active(), k),
            t.annotations(),
        ) && attrs_agree(sa, shown_styles(w))
}

/// The number of text bytes of the first `i` spans.
pub open spec fn spans_bytes_before(r: Seq<Span>, i: int) -> int {
    encode_utf8(spans_text(r.take(i))).len() as int
}

/// Every byte of span `i` of `r`, which starts at text byte `start`, shows
/// the span's attributes (see [`shows_at`]).
pub open spec fn spans_show(t: RichText, r: Seq<Span>, start: int) -> bool {
    forall|i: int, p: int|
        0 <= i < r.len() && start + spans_bytes_before(r, i) <= p < start + spans_bytes_before(r, i + 1)
            ==> #[trigger] shows_at(t, p, r[i].attributes@)
}

/// `r` are the styles in effect on the character at text byte `position` of
/// `t`: those of the winners among the annotations active on the element
/// that holds it (see [`styles_of`]).
pub open spec fn styles_at(t: RichText, position: int, r: Seq<(String, serde_json::Value)>) -> bool {
    exists|k: int, w: Seq<Arc<Annotation>>|
        holds_position(t.elems(), k, position) && styles_of(
            r,
            w,
            active_at(t.elems(), t.init_active(), k),
            t.annotations(),
        )
}

impl RichText {
    /// The annotation indices in effect at the very start of the text.
    pub closed spec fn init_active(&self) -> Set<i32> {
        self.init_styles.inner@
    }

    /// The styles in effect on the character at text byte `position` (after
    /// the last character when `position` is past it): of the competing
    /// active annotations, the winner's type and value (see [`styles_of`]).
    #[verifier::rlimit(40)]
    #[verifier::spinoff_prover]
    pub fn get_style_at_position(&self, position: usize) -> (r: Vec<(String, serde_json::Value)>)
        requires
            self.wf(),
        ensures
            styles_at(*self, position as int, r@),
            forall|i: int| 0 <= i < r@.len() ==> #[trigger] pair_registered(r@[i], self.annotations()),
    {
        let ghost n_ann = self.ann.idx_to_ann.len() as int;
        let ghost s = self.content@;
        let ghost init = self.init_styles.inner@;
        let mut calc = self.init_styles.duplicate();
        let mut pos: usize = 0;
        let mut k: usize = 0;
        let mut found = false;
        proof {
            assert(s.take(0) =~= Seq::<Elem>::empty());
        }
        while k < self.content.len() && !found
            invariant
                self.wf(),
                s == self.content@,
                init == self.init_styles.inner@,
                n_ann == self.ann.idx_to_ann.len(),
                0 <= k <= s.len(),
                pos == text_of_elems(s.take(k as int)).len(),
                calc.wf(),
                forall|x: i32| #[trigger] calc.inner@.contains(x) ==> x < n_ann,
                forall|j: int|
                    0 <= j < k ==> !((#[trigger] s[j]).visible().len() > 0 && position
                        < text_of_elems(s.take(j + 1)).len()),
                !found ==> calc.inner@ == active_after(s.take(k as int), init),
                found ==> k < s.len() && s[k as int].visible().len() > 0 && position < text_of_elems(
                    s.take(k + 1),
                ).len() && calc.inner@ == pass_start(s[k as int], active_after(s.take(k as int), init)),
            decreases s.len() - k + if found {
                0int
            } else {
                1int
            },
        {
            let e = &self.content[k];
            proof {
                assert(elem_ok(s[k as int], n_ann));
                lemma_text_split_at(s, k as int);
                lemma_prefix_len_mono(s, k as int + 1, s.len() as int);
                assert(s.take(s.len() as int) =~= s);
                assert(s.take(k as int + 1).drop_last() =~= s.take(k as int));
            }
            calc.apply_start(&e.anchor_set);
            let l = e.content_len();
            if l > 0 && position < pos + l {
                found = true;
            } else {
                calc.apply_end(&e.anchor_set);
                pos = pos + l;
                k = k + 1;
            }
        }
        proof {
            if !found {
                assert(s.take(k as int) =~= s);
            }
            assert(holds_position(s, k as int, position as int));
            assert(calc.inner@ == active_at(s, init, k as int));
        }
        let winners = calc.calc_styles(&self.ann);
        let mut out: Vec<(String, serde_json::Value)> = Vec::new();
        let mut i: usize = 0;
        while i < winners.len()
            invariant
                0 <= i <= winners@.len(),
                calc.wf(),
                forall|j: int|
                    #![trigger winners@[j]]
                    0 <= j < winners@.len() ==> is_active(*winners@[j], calc.inner@, self.ann),
                forall|x: i32| #[trigger] calc.inner@.contains(x) ==> x < self.ann.idx_to_ann.len(),
                crate::ann::keys_distinct(winners@),
                forall|x: i32| #[trigger]
                    calc.inner@.contains(x) ==> crate::ann::dominated(winners@, *self.ann.idx_to_ann@[x as int]),
                calc.inner@ == active_at(s, init, k as int),
                holds_position(s, k as int, position as int),
                s == self.content@,
                init == self.init_styles.inner@,
                out@.len() == i,
                forall|j: int|
                    0 <= j < i ==> (#[trigger] out@[j]).0@ == winners@[j].type_@ && out@[j].1
                        == winners@[j].value,
                forall|j: int| 0 <= j < out@.len() ==> #[trigger] pair_registered(out@[j], self.ann.idx_to_ann@),
            decreases winners@.len() - i,
        {
            let w = &winners[i];
            proof {
                assert(is_active(*winners@[i as int], calc.inner@, self.ann));
                let x = choose|x: i32| #[trigger]
                    calc.inner@.contains(x) && *winners@[i as int] == *self.ann.idx_to_ann@[x as int];
                assert(crate::ann::idx_set_wf(calc.inner@));
                assert(pair_registered((w.type_, w.value), self.ann.idx_to_ann@));
            }
            let ghost before = out@;
            out.push((w.type_.clone(), json_clone(&w.value)));
            proof {
                assert forall|j: int| 0 <= j < out@.len() implies #[trigger] pair_registered(
                    out@[j],
                    self.ann.idx_to_ann@,
                ) by {
                    if j < before.len() {
                        assert(out@[j] == before[j]);
                    }
                }
            }
            i = i + 1;
        }
        proof {
            assert forall|j: int| 0 <= j < winners@.len() implies active_in(
                *(#[trigger] winners@[j]),
                calc.inner@,
                self.ann.idx_to_ann@,
            ) by {
                assert(is_active(*winners@[j], calc.inner@, self.ann));
            }
            assert(styles_of(out@, winners@, calc.inner@, self.ann.idx_to_ann@));
            assert(holds_position(self.elems(), k as int, position as int) && styles_of(
                out@,
                winners@,
                active_at(self.elems(), self.init_active(), k as int),
                self.annotations(),
            ));
        }
        out
    }
}

impl RichText {
    /// [`RichText::annotate`] with the range counted in UTF-16 code units (an
    /// index inside a surrogate pair counts the whole character).
    pub fn annotate_utf16(&mut self, start: usize, end: usize, style: Style)
        requires
            old(self).wf(),
            start <= end <= utf16_len_of(text_of(old(self).text())),
            old(self).has_room(1),
            old(self).annotations().len() + 3 < i32::MAX,
        ensures
            final(self).wf(),
            annotated(
                *old(self),
                *final(self),
                utf8_offset_of_utf16(text_of(old(self).text()), start as int) as int,
                utf8_offset_of_utf16(text_of(old(self).text()), end as int) as int,
                style,
            ),
    {
        proof {
            self.lemma_wf_text_valid();
            lemma_offset_boundary(self.text(), start as int);
            lemma_offset_boundary(self.text(), end as int);
            lemma_offset_mono(text_of(self.text()), start as int, end as int);
        }
        let a = self.convert_index(start, IndexType::Utf16, IndexType::Utf8);
        let b = self.convert_index(end, IndexType::Utf16, IndexType::Utf8);
        self.annotate_in(a, b, style);
    }
}

} // verus!
