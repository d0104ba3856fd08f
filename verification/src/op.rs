//! Operations: text insertions, run-length encoded deletions and
//! annotations, and the store that keeps each peer's operations in order.
use vstd::prelude::*;

use append_only_bytes::BytesSlice;
use fxhash::FxHashMap;
use std::sync::Arc;

use crate::bytes::{
    bytes_can_merge, bytes_clone, bytes_len, bytes_slice_clone, bytes_try_merge, slice_bytes,
    slices_adjacent,
};
use crate::fx::{arc_ann_clone, fx_map_get, fx_map_insert, fx_map_keys, fx_map_new, fx_map_remove, ClientMap};
use crate::vv::VersionVector;
use vstd::std_specs::cmp::PartialEqSpecImpl;
use crate::{spec_shift_counter, Annotation, ClientID, Counter, Lamport, OpID};

verus! {

broadcast use vstd::seq_lib::group_seq_properties;

/// A deletion of a run of consecutive ids of one peer.
///
/// A positive `len` deletes `start, start + 1, ..., start + len - 1`; a
/// negative `len` runs backwards and deletes `start, start - 1, ...,
/// start + len + 1`, so that deletions made with backspace merge too.
#[derive(Debug, Clone, Copy)]
pub struct DeleteOp {
    pub start: OpID,
    pub len: i32,
}

/// Absolute value as an integer.
pub open spec fn abs(x: int) -> int {
    if x < 0 {
        -x
    } else {
        x
    }
}

/// First counter that the deletion covers.
pub open spec fn del_lo(d: DeleteOp) -> int {
    if d.len > 0 {
        d.start.counter as int
    } else {
        d.start.counter + d.len + 1
    }
}

/// One past the last counter that the deletion covers.
pub open spec fn del_hi(d: DeleteOp) -> int {
    if d.len > 0 {
        d.start.counter + d.len
    } else {
        d.start.counter + 1
    }
}

/// The counters that the deletion covers.
pub open spec fn del_counters(d: DeleteOp) -> Set<int> {
    Set::new(|x: int| del_lo(d) <= x < del_hi(d))
}

/// A deletion that covers at least one id, all of them valid counters, and
/// whose length can be negated.
pub open spec fn del_wf(d: DeleteOp) -> bool {
    &&& d.len != 0
    &&& d.len > i32::MIN
    &&& 0 <= del_lo(d)
    &&& del_hi(d) <= u32::MAX + 1
}

/// The same deletion written with a positive length.
pub open spec fn spec_positive(d: DeleteOp) -> DeleteOp {
    if d.len > 0 {
        d
    } else {
        DeleteOp {
            start: OpID {
                client: d.start.client,
                counter: spec_shift_counter(d.start.counter, d.len + 1),
            },
            len: (-d.len) as i32,
        }
    }
}

/// The same deletion written with a negative length.
pub open spec fn spec_negative(d: DeleteOp) -> DeleteOp {
    if d.len < 0 {
        d
    } else {
        DeleteOp {
            start: OpID {
                client: d.start.client,
                counter: spec_shift_counter(d.start.counter, d.len - 1),
            },
            len: (-d.len) as i32,
        }
    }
}

/// Direction bits: `0b01` forward, `0b10` backward, `0b11` a single id, which
/// can be read in both directions.
pub open spec fn spec_direction(d: DeleteOp) -> u8 {
    if d.len == 1 || d.len == -1 {
        3
    } else if d.len > 0 {
        1
    } else {
        2
    }
}

/// The counter right after the run, and for a single id also the counter right
/// before it (as the run may be read backwards).
pub open spec fn spec_next_counter(d: DeleteOp) -> (i32, Option<i32>) {
    (
        ((d.start.counter as i32) + d.len) as i32,
        if d.len == 1 || d.len == -1 {
            if d.len > 0 {
                Some(((d.start.counter as i32) - 1) as i32)
            } else {
                Some(((d.start.counter as i32) + 1) as i32)
            }
        } else {
            None
        },
    )
}

/// Whether `b` continues the run `a`, so that both can be stored as one.
pub open spec fn spec_del_can_merge(a: DeleteOp, b: DeleteOp) -> bool {
    &&& a.start.client == b.start.client
    &&& (spec_direction(a) == 3 || spec_direction(b) == 3 || spec_direction(a) == spec_direction(b))
    &&& {
        let (x, y) = spec_next_counter(a);
        x == b.start.counter as i32 || y == Some(b.start.counter as i32)
    }
}

/// The length of the run that `a` becomes when `b` is appended to it.
pub open spec fn spec_merged_len(a: DeleteOp, b: DeleteOp) -> int {
    if a.len > 1 {
        a.len + abs(b.len as int)
    } else if a.len < -1 {
        a.len - abs(b.len as int)
    } else if b.start.counter > a.start.counter {
        abs(b.len as int) + 1
    } else {
        -abs(b.len as int) - 1
    }
}

/// The counters fit an `i32`, as `next_counter` computes in `i32`.
pub open spec fn next_counter_fits(d: DeleteOp) -> bool {
    let c = d.start.counter as i32;
    &&& i32::MIN <= c + d.len <= i32::MAX
    &&& (d.len == 1 || d.len == -1) ==> i32::MIN < c && c < i32::MAX
}

/// The first counter and the length of `a` written in the direction of
/// `b` (forwards when `b` runs forwards, else backwards).
pub open spec fn del_in_direction_of(a: DeleteOp, b: DeleteOp) -> (int, int) {
    if b.len > 0 {
        if a.len > 0 {
            (a.start.counter as int, a.len as int)
        } else {
            (a.start.counter + a.len + 1, -a.len)
        }
    } else {
        if a.len < 0 {
            (a.start.counter as int, a.len as int)
        } else {
            (a.start.counter + a.len - 1, -a.len)
        }
    }
}

/// Two deletions are equal when they delete the same atoms in the same
/// direction.
impl PartialEq for DeleteOp {
    fn eq(&self, other: &Self) -> (r: bool) {
        if self.start.client != other.start.client {
            return false;
        }
        let c = self.start.counter as i64;
        let l = self.len as i64;
        let (pc, pl): (i64, i64) = if other.len > 0 {
            if self.len > 0 {
                (c, l)
            } else {
                (c + l + 1, -l)
            }
        } else {
            if self.len < 0 {
                (c, l)
            } else {
                (c + l - 1, -l)
            }
        };
        pc == other.start.counter as i64 && pl == other.len as i64
    }
}

impl PartialEqSpecImpl for DeleteOp {
    open spec fn obeys_eq_spec() -> bool {
        true
    }

    open spec fn eq_spec(&self, other: &DeleteOp) -> bool {
        &&& self.start.client == other.start.client
        &&& del_in_direction_of(*self, *other).0 == other.start.counter
        &&& del_in_direction_of(*self, *other).1 == other.len
    }
}

impl DeleteOp {
    /// Number of ids deleted.
    pub fn rle_len(&self) -> (n: usize)
        ensures
            n == abs(self.len as int),
    {
        if self.len < 0 {
            (0i64 - self.len as i64) as usize
        } else {
            self.len as usize
        }
    }

    /// The part of the run from its `start`-th to its `end`-th id.
    pub fn slice(&self, start: usize, end: usize) -> (d: Self)
        requires
            start <= end <= abs(self.len as int),
            self.len > i32::MIN,
            self.len > 0 ==> self.start.counter + start <= u32::MAX,
        ensures
            d.start.client == self.start.client,
            self.len > 0 ==> d.start.counter == self.start.counter + start && d.len == end
                - start,
            self.len <= 0 ==> d.start.counter == spec_shift_counter(
                self.start.counter,
                -(start as int),
            ) && d.len == -(end - start),
    {
        let len = end - start;
        if self.len > 0 {
            DeleteOp { start: self.start.inc(start as Counter), len: len as i32 }
        } else {
            let s: i32 = start as i32;
            DeleteOp { start: self.start.inc_i32(-s), len: -(len as i32) }
        }
    }

    /// See [`spec_next_counter`].
    pub fn next_counter(&self) -> (r: (i32, Option<i32>))
        requires
            next_counter_fits(*self),
        ensures
            r == spec_next_counter(*self),
    {
        let c = self.start.counter as i32;
        (
            c + self.len,
            if self.len == 1 || self.len == -1 {
                if self.len > 0 {
                    Some(c - 1)
                } else {
                    Some(c + 1)
                }
            } else {
                None
            },
        )
    }

    /// The same deletion with a positive length.
    pub fn positive(&self) -> (d: DeleteOp)
        requires
            self.len > i32::MIN,
            self.len == 0 ==> self.start.counter < u32::MAX,
        ensures
            d == spec_positive(*self),
    {
        if self.len > 0 {
            *self
        } else {
            DeleteOp { start: self.start.inc_i32(self.len + 1), len: -self.len }
        }
    }

    /// The same deletion with a negative length.
    pub fn negative(&self) -> (d: DeleteOp)
        requires
            self.len > i32::MIN,
            self.len > 0 ==> self.start.counter + self.len - 1 <= u32::MAX,
        ensures
            d == spec_negative(*self),
    {
        if self.len < 0 {
            *self
        } else {
            DeleteOp { start: self.start.inc_i32(self.len - 1), len: -self.len }
        }
    }

    /// See [`spec_direction`].
    pub fn direction(&self) -> (r: u8)
        requires
            self.len > i32::MIN,
        ensures
            r == spec_direction(*self),
    {
        if self.len == 1 || self.len == -1 {
            3
        } else if self.len > 0 {
            1
        } else {
            2
        }
    }

    /// Whether `rhs` continues this run: same peer, compatible directions, and
    /// `rhs` starts right after (or, for a single id, right before) this run.
    pub fn can_merge(&self, rhs: &Self) -> (b: bool)
        requires
            self.len > i32::MIN,
            rhs.len > i32::MIN,
            next_counter_fits(*self),
        ensures
            b == spec_del_can_merge(*self, *rhs),
    {
        let da = self.direction();
        let db = rhs.direction();
        proof {
            assert((da & db) == 0 <==> ((da == 1 && db == 2) || (da == 2 && db == 1))) by (bit_vector)
                requires
                    1 <= da <= 3,
                    1 <= db <= 3,
            ;
        }
        if self.start.client != rhs.start.client || (da & db) == 0 {
            return false;
        }
        let (a, b) = self.next_counter();
        let rc = rhs.start.counter as i32;
        a == rc || (match b {
            Some(x) => x == rc,
            None => false,
        })
    }

    /// Appends the run `rhs` to this run.
    pub fn merge_right(&mut self, rhs: &Self)
        requires
            old(self).len != 0,
            rhs.len > i32::MIN,
            i32::MIN < spec_merged_len(*old(self), *rhs) <= i32::MAX,
        ensures
            final(self).start == old(self).start,
            final(self).len == spec_merged_len(*old(self), *rhs),
    {
        let r: i32 = if rhs.len < 0 {
            -rhs.len
        } else {
            rhs.len
        };
        if self.len > 1 {
            self.len = self.len + r;
        } else if self.len < -1 {
            self.len = self.len - r;
        } else if rhs.start.counter > self.start.counter {
            self.len = r + 1;
        } else {
            self.len = -r - 1;
        }
    }

    /// Prepends the run `left` to this run: the result is `left` with this run
    /// appended.
    pub fn merge_left(&mut self, left: &Self)
        requires
            left.len != 0,
            old(self).len > i32::MIN,
            i32::MIN < spec_merged_len(*left, *old(self)) <= i32::MAX,
        ensures
            final(self).start == left.start,
            final(self).len == spec_merged_len(*left, *old(self)),
    {
        let mut l = *left;
        l.merge_right(self);
        *self = l;
    }
}

/// Both signs of a deletion cover the same ids.
pub proof fn lemma_positive_negative_same_ids(d: DeleteOp)
    requires
        del_wf(d),
    ensures
        del_wf(spec_positive(d)),
        del_wf(spec_negative(d)),
        del_counters(spec_positive(d)) == del_counters(d),
        del_counters(spec_negative(d)) == del_counters(d),
        spec_positive(d).len > 0,
        spec_negative(d).len < 0,
        spec_positive(d).start.client == d.start.client,
        spec_negative(d).start.client == d.start.client,
{
    assert(del_counters(spec_positive(d)) =~= del_counters(d));
    assert(del_counters(spec_negative(d)) =~= del_counters(d));
}

/// Turning a deletion positive and then negative (or the other way round)
/// gives the same as turning it negative (positive) directly.
pub proof fn lemma_positive_negative_roundtrip(d: DeleteOp)
    requires
        del_wf(d),
    ensures
        spec_negative(spec_positive(d)) == spec_negative(d),
        spec_positive(spec_negative(d)) == spec_positive(d),
{
}

/// Merging a run that continues this one covers exactly the ids of both runs.
/// A run that doubles back (it starts right after a single id but runs the
/// other way) is excluded: merging it does not give the union.
pub proof fn lemma_merge_covers_union(a: DeleteOp, b: DeleteOp)
    requires
        del_wf(a),
        del_wf(b),
        next_counter_fits(a),
        a.start.counter <= i32::MAX,
        b.start.counter <= i32::MAX,
        spec_del_can_merge(a, b),
        b.len == 1 || b.len == -1 || (b.start.counter > a.start.counter) == (b.len > 0),
        i32::MIN < spec_merged_len(a, b) <= i32::MAX,
    ensures
        del_counters(DeleteOp { start: a.start, len: spec_merged_len(a, b) as i32 })
            == del_counters(a).union(del_counters(b)),
        del_counters(a).disjoint(del_counters(b)),
{
    let m = DeleteOp { start: a.start, len: spec_merged_len(a, b) as i32 };
    let ac = a.start.counter;
    let bc = b.start.counter;
    assert(ac <= 0x7fff_ffff ==> (ac as i32) as int == ac as int) by (bit_vector);
    assert(bc <= 0x7fff_ffff ==> (bc as i32) as int == bc as int) by (bit_vector);
    assert(del_counters(m) =~= del_counters(a).union(del_counters(b)));
    assert(del_counters(a).disjoint(del_counters(b)));
}


} // verus!

verus! {

/// An insertion of text between two characters (its origins).
pub struct TextInsertOp {
    pub text: BytesSlice,
    pub left: Option<OpID>,
    pub right: Option<OpID>,
}

/// What an operation does.
pub enum OpContent {
    Ann(Arc<Annotation>),
    Text(TextInsertOp),
    Del(DeleteOp),
}

/// An operation: its first id, its lamport timestamp and its content. An
/// operation of length `n` uses the ids and lamports from its own up to `n - 1`
/// later.
pub struct Op {
    pub id: OpID,
    pub lamport: Lamport,
    pub content: OpContent,
}

/// Number of atoms (ids) an operation uses.
pub open spec fn op_len(op: Op) -> nat {
    match op.content {
        OpContent::Ann(_) => 1,
        OpContent::Text(t) => slice_bytes(t.text).len(),
        OpContent::Del(d) => abs(d.len as int) as nat,
    }
}

/// A deletion whose counters fit the `i32` arithmetic of merging.
pub open spec fn del_fits(d: DeleteOp) -> bool {
    &&& d.len != 0
    &&& d.len > i32::MIN
    &&& 0 <= del_lo(d)
    &&& del_hi(d) <= i32::MAX
}

/// An operation that uses at least one id, whose ids and lamports fit a
/// counter, and whose deletion (if it is one) fits `i32` arithmetic.
pub open spec fn op_wf(op: Op) -> bool {
    &&& op_len(op) >= 1
    &&& op.id.counter + op_len(op) <= u32::MAX
    &&& op.lamport + op_len(op) <= u32::MAX
    &&& op.content matches OpContent::Del(d) ==> del_fits(d)
}

/// Whether `b` continues `a` so that both can be stored as one operation.
pub open spec fn spec_op_can_merge(a: Op, b: Op) -> bool {
    &&& a.id.client == b.id.client
    &&& a.id.counter + op_len(a) == b.id.counter
    &&& a.lamport + op_len(a) == b.lamport
    &&& match (a.content, b.content) {
        (OpContent::Text(l), OpContent::Text(r)) => {
            &&& r.left == Some(OpID { client: a.id.client, counter: (a.id.counter + op_len(a) - 1) as u32 })
            &&& r.right == l.right
            &&& slices_adjacent(l.text, r.text)
        },
        (OpContent::Del(x), OpContent::Del(y)) => spec_del_can_merge(x, y),
        _ => false,
    }
}

/// The operation `a` with `b` appended (when they can merge).
pub open spec fn spec_merged_content_ok(a: Op, b: Op, m: Op) -> bool {
    &&& m.id == a.id
    &&& m.lamport == a.lamport
    &&& match (a.content, b.content, m.content) {
        (OpContent::Text(l), OpContent::Text(r), OpContent::Text(n)) => {
            &&& n.left == l.left
            &&& n.right == l.right
            &&& slice_bytes(n.text) == slice_bytes(l.text) + slice_bytes(r.text)
        },
        (OpContent::Del(x), OpContent::Del(y), OpContent::Del(z)) => {
            &&& z.start == x.start
            &&& z.len == spec_merged_len(x, y)
        },
        _ => false,
    }
}

/// The merged deletion length stays in `i32` and away from `i32::MIN`.
pub open spec fn merge_fits(a: Op, b: Op) -> bool {
    match (a.content, b.content) {
        (OpContent::Del(x), OpContent::Del(y)) => i32::MIN < spec_merged_len(x, y) <= i32::MAX,
        _ => true,
    }
}

/// Whether the store appends `b` to `a` in place: `b` continues `a` and, for
/// deletions, the merged run still fits the `i32` arithmetic of deletions.
pub open spec fn spec_store_merges(a: Op, b: Op) -> bool {
    &&& spec_op_can_merge(a, b)
    &&& merge_fits(a, b)
    &&& match (a.content, b.content) {
        (OpContent::Del(x), OpContent::Del(y)) => del_fits(
            DeleteOp { start: x.start, len: spec_merged_len(x, y) as i32 },
        ),
        _ => true,
    }
}

/// The history `after` is `before` with `op` stored: merged into the last
/// operation when it continues it (see [`spec_store_merges`]), else
/// appended.
pub open spec fn recorded(before: Seq<Op>, after: Seq<Op>, op: Op) -> bool {
    if before.len() > 0 && spec_store_merges(before.last(), op) {
        &&& after.len() == before.len()
        &&& after.drop_last() == before.drop_last()
        &&& spec_merged_content_ok(before.last(), op, after.last())
    } else {
        after == before.push(op)
    }
}

/// The history `after` is `before` with the operations `ops` stored in turn
/// (see [`recorded`]).
pub open spec fn recorded_seq(before: Seq<Op>, after: Seq<Op>, ops: Seq<Op>) -> bool
    decreases ops.len(),
{
    if ops.len() == 0 {
        after == before
    } else {
        exists|mid: Seq<Op>|
            #![trigger recorded(mid, after, ops.last())]
            recorded_seq(before, mid, ops.drop_last()) && recorded(mid, after, ops.last())
    }
}

/// The length of a merged deletion is the sum of the lengths.
pub proof fn lemma_merged_len_abs(a: DeleteOp, b: DeleteOp)
    requires
        a.len != 0,
    ensures
        abs(spec_merged_len(a, b)) == abs(a.len as int) + abs(b.len as int),
{
}

impl OpContent {
    pub fn new_insert(left: Option<OpID>, right: Option<OpID>, slice: BytesSlice) -> (c: Self)
        ensures
            c == OpContent::Text(TextInsertOp { text: slice, left, right }),
    {
        OpContent::Text(TextInsertOp { text: slice, left, right })
    }

    /// A deletion of `len` ids from `start`, stored backwards (as deletions
    /// are usually typed with backspace).
    pub fn new_delete(start: OpID, len: i32) -> (c: Self)
        requires
            len > i32::MIN,
            len > 1 ==> start.counter + len - 1 <= u32::MAX,
        ensures
            c == OpContent::Del(
                if len > 0 {
                    DeleteOp {
                        start: OpID { client: start.client, counter: (start.counter + len - 1) as u32 },
                        len: (-len) as i32,
                    }
                } else {
                    DeleteOp { start, len }
                },
            ),
    {
        let mut start = start;
        let mut len = len;
        if len > 0 {
            // prefer negative del
            start = start.inc_i32(len - 1);
            len = -len;
        }
        OpContent::Del(DeleteOp { start, len })
    }

    pub fn new_ann(ann: Arc<Annotation>) -> (c: Self)
        ensures
            c == OpContent::Ann(ann),
    {
        OpContent::Ann(ann)
    }
}

impl Clone for Op {
    fn clone(&self) -> (r: Self)
        ensures
            r == *self,
    {
        let content = match &self.content {
            OpContent::Ann(a) => OpContent::Ann(arc_ann_clone(a)),
            OpContent::Text(t) => OpContent::Text(
                TextInsertOp { text: bytes_clone(&t.text), left: t.left, right: t.right },
            ),
            OpContent::Del(d) => OpContent::Del(*d),
        };
        Op { id: self.id, lamport: self.lamport, content }
    }
}

impl Op {
    /// Number of ids the operation uses.
    pub fn rle_len(&self) -> (n: usize)
        ensures
            n == op_len(*self),
    {
        match &self.content {
            OpContent::Ann(_) => 1,
            OpContent::Text(text) => bytes_len(&text.text),
            OpContent::Del(del) => del.rle_len(),
        }
    }

    /// See [`spec_op_can_merge`].
    pub fn can_merge(&self, rhs: &Self) -> (b: bool)
        requires
            op_wf(*self),
            op_wf(*rhs),
        ensures
            b == spec_op_can_merge(*self, *rhs),
    {
        let len = self.rle_len() as Counter;
        if self.id.client != rhs.id.client || self.id.counter + len != rhs.id.counter
            || self.lamport + len != rhs.lamport {
            return false;
        }
        match (&self.content, &rhs.content) {
            (OpContent::Text(left), OpContent::Text(right)) => {
                right.left == Some(self.id.inc(len - 1)) && right.right == left.right
                    && bytes_can_merge(&left.text, &right.text)
            },
            (OpContent::Del(a), OpContent::Del(b)) => {
                proof {
                    let c = a.start.counter;
                    assert(c <= 0x7fff_ffff ==> (c as i32) as int == c as int) by (bit_vector);
                }
                a.can_merge(b)
            },
            _ => false,
        }
    }

    /// Appends `rhs`, which continues this operation.
    pub fn merge_right(&mut self, rhs: &Self)
        requires
            op_wf(*old(self)),
            op_wf(*rhs),
            spec_op_can_merge(*old(self), *rhs),
            merge_fits(*old(self), *rhs),
        ensures
            spec_merged_content_ok(*old(self), *rhs, *final(self)),
            op_len(*final(self)) == op_len(*old(self)) + op_len(*rhs),
    {
        match &rhs.content {
            OpContent::Text(ins2) => {
                match &mut self.content {
                    OpContent::Text(ins) => {
                        bytes_try_merge(&mut ins.text, &ins2.text);
                    },
                    _ => {},
                }
            },
            OpContent::Del(del2) => {
                match &mut self.content {
                    OpContent::Del(del) => {
                        proof {
                            lemma_merged_len_abs(*del, *del2);
                        }
                        del.merge_right(del2);
                    },
                    _ => {},
                }
            },
            _ => {},
        }
    }

    /// The part of the operation from its `start`-th to its `end`-th atom.
    pub fn slice(&self, start: usize, end: usize) -> (r: Op)
        requires
            op_wf(*self),
            start < end <= op_len(*self),
        ensures
            is_op_slice(*self, start as int, end as int, r),
            op_len(r) == end - start,
    {
        let id = self.id.inc(start as Counter);
        let lamport = self.lamport + start as Lamport;
        match &self.content {
            OpContent::Ann(a) => Op { id, lamport, content: OpContent::Ann(arc_ann_clone(a)) },
            OpContent::Text(text) => {
                let len = bytes_len(&text.text);
                Op {
                    id,
                    lamport,
                    content: OpContent::Text(
                        TextInsertOp {
                            text: bytes_slice_clone(&text.text, start, end),
                            left: if start == 0 {
                                text.left
                            } else {
                                Some(self.id.inc(start as Counter - 1))
                            },
                            right: if end == len {
                                text.right
                            } else {
                                Some(self.id.inc(end as Counter))
                            },
                        },
                    ),
                }
            },
            OpContent::Del(del) => Op { id, lamport, content: OpContent::Del(del.slice(start, end)) },
        }
    }
}

/// `r` is the part of `op` from its `start`-th to its `end`-th atom: later id
/// and lamport, the text between, the origins of a cut end being the
/// neighbouring character of the same insertion, and the deletion's part.
pub open spec fn is_op_slice(op: Op, start: int, end: int, r: Op) -> bool {
    &&& r.id == OpID { client: op.id.client, counter: (op.id.counter + start) as u32 }
    &&& r.lamport == (op.lamport + start) as u32
    &&& match (op.content, r.content) {
        (OpContent::Ann(a), OpContent::Ann(b)) => a == b,
        (OpContent::Text(t), OpContent::Text(u)) => {
            &&& slice_bytes(u.text) == slice_bytes(t.text).subrange(start, end)
            &&& u.left == if start == 0 {
                t.left
            } else {
                Some(OpID { client: op.id.client, counter: (op.id.counter + start - 1) as u32 })
            }
            &&& u.right == if end == slice_bytes(t.text).len() {
                t.right
            } else {
                Some(OpID { client: op.id.client, counter: (op.id.counter + end) as u32 })
            }
        },
        (OpContent::Del(d), OpContent::Del(e)) => e == if d.len > 0 {
            DeleteOp {
                start: OpID { client: d.start.client, counter: (d.start.counter + start) as u32 },
                len: (end - start) as i32,
            }
        } else {
            DeleteOp {
                start: OpID {
                    client: d.start.client,
                    counter: spec_shift_counter(d.start.counter, -start),
                },
                len: (-(end - start)) as i32,
            }
        },
        _ => false,
    }
}

/// How a remote operation relates to what the store already holds.
#[derive(Debug, Clone, Copy, PartialEq, Eq, Structural)]
pub enum CanApply {
    /// It continues the peer's history: apply it as it is.
    Yes,
    /// Its first atoms are known: apply the rest, from this many atoms on.
    Trim(Counter),
    /// Atoms before it are missing: keep it for later.
    Pending,
    /// All of it is known.
    Seen,
}

/// The counter right after a peer's history.
pub open spec fn log_end(ops: Seq<Op>) -> int {
    if ops.len() == 0 {
        0
    } else {
        ops.last().id.counter + op_len(ops.last())
    }
}

/// A peer's history: well-formed operations of that peer, starting at counter
/// 0, each starting where the previous one ends.
pub open spec fn log_wf(ops: Seq<Op>, c: ClientID) -> bool {
    &&& forall|i: int| 0 <= i < ops.len() ==> op_wf(#[trigger] ops[i]) && ops[i].id.client == c
    &&& ops.len() > 0 ==> ops[0].id.counter == 0
    &&& forall|i: int|
        0 < i < ops.len() ==> #[trigger] ops[i].id.counter == ops[i - 1].id.counter + op_len(
            ops[i - 1],
        )
}

/// What [`OpStore::can_apply`] answers for `op` when the peer's history ends
/// at `end`.
pub open spec fn spec_can_apply(end: int, op: Op) -> CanApply {
    if end == op.id.counter {
        CanApply::Yes
    } else if end < op.id.counter {
        CanApply::Pending
    } else if end >= op.id.counter + op_len(op) {
        CanApply::Seen
    } else {
        CanApply::Trim((end - op.id.counter) as u32)
    }
}

/// `r` is what [`OpStore::export`] sends of a history `ops` to a peer that
/// knows the atoms before `target`: the operation holding `target`, cut to
/// start there, and all the later ones.
pub open spec fn is_export_of(ops: Seq<Op>, target: int, r: Seq<Op>) -> bool {
    exists|i: int|
        #![trigger ops[i]]
        0 <= i < ops.len() && ops[i].id.counter <= target < ops[i].id.counter + op_len(ops[i])
            && r.len() == ops.len() - i && (forall|j: int|
            0 < j < r.len() ==> #[trigger] r[j] == ops[i + j]) && if ops[i].id.counter == target {
            r[0] == ops[i]
        } else {
            is_op_slice(ops[i], target - ops[i].id.counter, op_len(ops[i]) as int, r[0])
        }
}

/// The operations of all peers, each peer's in order, merged where they can
/// be.
pub struct OpStore {
    pub map: FxHashMap<ClientID, Vec<Op>>,
    pub client: ClientID,
    pub next_lamport: Lamport,
}

/// The number of operations held for the peers `keys`, in that order.
pub open spec fn lens_sum(keys: Seq<ClientID>, m: Map<ClientID, Vec<Op>>) -> nat
    decreases keys.len(),
{
    if keys.len() == 0 {
        0
    } else {
        lens_sum(keys.drop_last(), m) + m[keys.last()]@.len()
    }
}

/// In a history, counters grow along the sequence.
pub proof fn lemma_log_sorted(ops: Seq<Op>, c: ClientID, i: int, j: int)
    requires
        log_wf(ops, c),
        0 <= i < j < ops.len(),
    ensures
        ops[i].id.counter + op_len(ops[i]) <= ops[j].id.counter,
    decreases j - i,
{
    if j > i + 1 {
        lemma_log_sorted(ops, c, i, j - 1);
        assert(ops[j].id.counter == ops[j - 1].id.counter + op_len(ops[j - 1]));
    } else {
        assert(ops[j].id.counter == ops[j - 1].id.counter + op_len(ops[j - 1]));
    }
}

impl OpStore {
    /// The history of peer `c`.
    pub open spec fn ops_of(&self, c: ClientID) -> Seq<Op> {
        if self.map@.contains_key(c) {
            self.map@[c]@
        } else {
            Seq::empty()
        }
    }

    pub open spec fn wf(&self) -> bool {
        forall|c: ClientID| #[trigger]
            self.map@.contains_key(c) ==> log_wf(self.map@[c]@, c) && self.map@[c]@.len() > 0
    }

    /// Whether `op` can be stored next: it is well-formed and continues its
    /// peer's history.
    pub open spec fn can_store(&self, op: Op) -> bool {
        &&& op_wf(op)
        &&& op.id.counter == log_end(self.ops_of(op.id.client))
    }

    /// The number of stored operations, over all peers (at most
    /// `usize::MAX`, where the count stops).
    pub fn op_len(&self) -> (n: usize)
        ensures
            exists|keys: Seq<ClientID>|
                keys.to_set() == self.map@.dom() && keys.no_duplicates() && n == if lens_sum(
                    keys,
                    self.map@,
                ) <= usize::MAX {
                    lens_sum(keys, self.map@)
                } else {
                    usize::MAX as nat
                },
    {
        let keys = fx_map_keys(&self.map);
        let mut total: usize = 0;
        let mut full = false;
        let mut k: usize = 0;
        while k < keys.len()
            invariant
                0 <= k <= keys@.len(),
                keys@.to_set() == self.map@.dom(),
                !full ==> total == lens_sum(keys@.take(k as int), self.map@),
                full ==> total == usize::MAX && lens_sum(keys@.take(k as int), self.map@) > usize::MAX,
            decreases keys@.len() - k,
        {
            proof {
                assert(keys@.take(k as int + 1).drop_last() =~= keys@.take(k as int));
                assert(keys@.to_set().contains(keys@[k as int]));
            }
            let v = fx_map_get(&self.map, keys[k]).unwrap();
            if !full {
                match total.checked_add(v.len()) {
                    Some(t) => total = t,
                    None => {
                        total = usize::MAX;
                        full = true;
                    },
                }
            }
            k = k + 1;
        }
        proof {
            assert(keys@.take(keys@.len() as int) =~= keys@);
        }
        total
    }

    pub fn new(client: ClientID) -> (s: Self)
        ensures
            s.wf(),
            s.client == client,
            s.next_lamport == 0,
            forall|c: ClientID| #[trigger] s.ops_of(c) == Seq::<Op>::empty(),
    {
        OpStore { map: fx_map_new(), client, next_lamport: 0 }
    }

    /// The end of `c`'s history, from the stored vector.
    fn end_of(&self, c: ClientID) -> (end: Counter)
        requires
            self.wf(),
        ensures
            end == log_end(self.ops_of(c)),
    {
        match fx_map_get(&self.map, c) {
            Some(v) => {
                proof {
                    assert(log_wf(v@, c));
                }
                let n = v.len();
                if n > 0 {
                    let last = &v[n - 1];
                    proof {
                        assert(op_wf(v@[n - 1]));
                    }
                    last.id.counter + last.rle_len() as Counter
                } else {
                    0
                }
            },
            None => 0,
        }
    }

    /// The id of the next local atom.
    pub fn next_id(&self) -> (id: OpID)
        requires
            self.wf(),
        ensures
            id == (OpID { client: self.client, counter: log_end(self.ops_of(self.client)) as u32 }),
    {
        OpID { client: self.client, counter: self.end_of(self.client) }
    }

    #[inline(always)]
    pub fn next_lamport(&self) -> (l: u32)
        ensures
            l == self.next_lamport,
    {
        self.next_lamport
    }

    /// How `op` relates to `op`'s peer's history; see [`spec_can_apply`].
    pub fn can_apply(&self, op: &Op) -> (r: CanApply)
        requires
            self.wf(),
            op_wf(*op),
        ensures
            r == spec_can_apply(log_end(self.ops_of(op.id.client)), *op),
    {
        let end = self.end_of(op.id.client);
        if end == op.id.counter {
            return CanApply::Yes;
        }
        if end < op.id.counter {
            return CanApply::Pending;
        }
        if end >= op.id.counter + op.rle_len() as Counter {
            return CanApply::Seen;
        }
        CanApply::Trim(end - op.id.counter)
    }

    /// Stores `op` at the end of its peer's history, merged into the last
    /// operation when it continues it, and returns the stored last operation.
    pub fn insert(&mut self, op: Op) -> (r: &Op)
        requires
            old(self).wf(),
            old(self).can_store(op),
        ensures
            final(self).wf(),
            final(self).client == old(self).client,
            final(self).next_lamport == if op.lamport + op_len(op) >= old(self).next_lamport {
                op.lamport + op_len(op)
            } else {
                old(self).next_lamport as int
            },
            forall|c: ClientID| c != op.id.client ==> #[trigger] final(self).ops_of(c) == old(self).ops_of(c),
            recorded(old(self).ops_of(op.id.client), final(self).ops_of(op.id.client), op),
            log_end(final(self).ops_of(op.id.client)) == log_end(old(self).ops_of(op.id.client)) + op_len(op),
            *r == final(self).ops_of(op.id.client).last(),
    {
        let len = op.rle_len() as Lamport;
        if op.lamport + len >= self.next_lamport {
            self.next_lamport = op.lamport + len;
        }
        let c = op.id.client;
        let mut vec = match fx_map_remove(&mut self.map, c) {
            Some(v) => v,
            None => Vec::new(),
        };
        let ghost before = vec@;
        proof {
            if old(self).map@.contains_key(c) {
                assert(log_wf(before, c));
            }
            assert(before == old(self).ops_of(c));
        }
        let mut done = false;
        let n = vec.len();
        if n > 0 {
            proof {
                assert(op_wf(before[n - 1]));
            }
            if vec[n - 1].can_merge(&op) && merged_run_fits(&vec[n - 1], &op) {
                let mut last = vec.pop().unwrap();
                last.merge_right(&op);
                vec.push(last);
                done = true;
                proof {
                    assert(vec@.drop_last() =~= before.drop_last());
                    let m = vec@.last();
                    assert(m.id == before[n - 1].id);
                    assert(op_wf(m)) by {
                        lemma_merged_len_abs_op(before[n - 1], op, m);
                    }
                    assert forall|i: int| 0 <= i < vec@.len() implies op_wf(#[trigger] vec@[i])
                        && vec@[i].id.client == c by {
                        if i < n - 1 {
                            assert(vec@[i] == before[i]);
                        }
                    }
                    assert forall|i: int| 0 < i < vec@.len() implies #[trigger] vec@[i].id.counter
                        == vec@[i - 1].id.counter + op_len(vec@[i - 1]) by {
                        assert(vec@[i - 1] == before[i - 1]);
                        if i < n - 1 {
                            assert(vec@[i] == before[i]);
                        } else {
                            assert(before[i].id.counter == before[i - 1].id.counter + op_len(
                                before[i - 1],
                            ));
                        }
                    }
                    if n > 1 {
                        assert(vec@[0] == before[0]);
                    }
                }
            }
        }
        if !done {
            vec.push(op);
            proof {
                assert forall|i: int| 0 <= i < vec@.len() implies op_wf(#[trigger] vec@[i])
                    && vec@[i].id.client == c by {
                    if i < n {
                        assert(vec@[i] == before[i]);
                    }
                }
                assert forall|i: int| 0 < i < vec@.len() implies #[trigger] vec@[i].id.counter
                    == vec@[i - 1].id.counter + op_len(vec@[i - 1]) by {
                    assert(vec@[i - 1] == before[i - 1]);
                    if i < n {
                        assert(vec@[i] == before[i]);
                        assert(before[i].id.counter == before[i - 1].id.counter + op_len(
                            before[i - 1],
                        ));
                    }
                }
                if n > 0 {
                    assert(vec@[0] == before[0]);
                }
            }
        }
        fx_map_insert(&mut self.map, c, vec);
        proof {
            assert forall|d: ClientID| #[trigger] self.map@.contains_key(d) implies log_wf(
                self.map@[d]@,
                d,
            ) && self.map@[d]@.len() > 0 by {
                if d != c {
                    assert(old(self).map@.contains_key(d));
                }
            }
            assert forall|d: ClientID| d != c implies #[trigger] self.ops_of(d) == old(self).ops_of(d) by {
                if self.map@.contains_key(d) {
                    assert(old(self).map@.contains_key(d));
                }
            }
        }
        let m = &self.map;
        let v = fx_map_get(m, c).unwrap();
        &v[v.len() - 1]
    }

    /// Stores a new local operation with the next id and lamport.
    pub fn insert_local(&mut self, content: OpContent) -> (r: &Op)
        requires
            old(self).wf(),
            old(self).can_store(
                Op {
                    id: OpID {
                        client: old(self).client,
                        counter: log_end(old(self).ops_of(old(self).client)) as u32,
                    },
                    lamport: old(self).next_lamport,
                    content,
                },
            ),
        ensures
            final(self).wf(),
            final(self).client == old(self).client,
            final(self).next_lamport == old(self).next_lamport + op_len(
                Op { id: OpID { client: old(self).client, counter: 0 }, lamport: 0, content },
            ),
            forall|c: ClientID| c != old(self).client ==> #[trigger] final(self).ops_of(c) == old(self).ops_of(c),
            log_end(final(self).ops_of(old(self).client)) == log_end(old(self).ops_of(old(self).client))
                + op_len(Op { id: OpID { client: old(self).client, counter: 0 }, lamport: 0, content }),
            *r == final(self).ops_of(old(self).client).last(),
            recorded(
                old(self).ops_of(old(self).client),
                final(self).ops_of(old(self).client),
                Op {
                    id: OpID {
                        client: old(self).client,
                        counter: log_end(old(self).ops_of(old(self).client)) as u32,
                    },
                    lamport: old(self).next_lamport,
                    content,
                },
            ),
    {
        let op = Op { id: self.next_id(), lamport: self.next_lamport, content };
        self.next_lamport = self.next_lamport + op.rle_len() as Lamport;
        self.insert(op)
    }

    /// For each peer, the end of its history.
    pub fn vv(&self) -> (v: VersionVector)
        requires
            self.wf(),
        ensures
            v.view().dom() == self.map@.dom(),
            forall|c: ClientID| #[trigger]
                v.view().contains_key(c) ==> v.view()[c] == log_end(self.ops_of(c)),
    {
        let keys = fx_map_keys(&self.map);
        let mut ans = VersionVector::new();
        let mut i: usize = 0;
        while i < keys.len()
            invariant
                self.wf(),
                keys@.to_set() == self.map@.dom(),
                0 <= i <= keys.len(),
                ans.view().dom() == keys@.take(i as int).to_set(),
                forall|c: ClientID| #[trigger]
                    ans.view().contains_key(c) ==> ans.view()[c] == log_end(self.ops_of(c)),
            decreases keys.len() - i,
        {
            let k = keys[i];
            let end = self.end_of(k);
            ans.set(k, end);
            proof {
                assert(keys@.take(i as int + 1) =~= keys@.take(i as int).push(k));
                assert(ans.view().dom() =~= keys@.take(i as int + 1).to_set());
            }
            i = i + 1;
        }
        proof {
            assert(keys@.take(keys.len() as int) =~= keys@);
        }
        ans
    }

    /// The operations a peer that knows `other_vv` is missing: for each peer
    /// whose history goes past `other_vv`, the part from there on (see
    /// [`is_export_of`]).
    pub fn export(&self, other_vv: &VersionVector) -> (r: FxHashMap<ClientID, Vec<Op>>)
        requires
            self.wf(),
        ensures
            forall|c: ClientID| #[trigger]
                r@.contains_key(c) <==> self.map@.contains_key(c) && other_vv.spec_get(c) < log_end(
                    self.ops_of(c),
                ),
            forall|c: ClientID| #[trigger]
                r@.contains_key(c) ==> is_export_of(self.ops_of(c), other_vv.spec_get(c) as int, r@[c]@),
    {
        let keys = fx_map_keys(&self.map);
        let mut ans: FxHashMap<ClientID, Vec<Op>> = fx_map_new();
        let mut k: usize = 0;
        while k < keys.len()
            invariant
                self.wf(),
                keys@.to_set() == self.map@.dom(),
                keys@.no_duplicates(),
                0 <= k <= keys.len(),
                forall|c: ClientID| #[trigger]
                    ans@.contains_key(c) <==> keys@.take(k as int).contains(c) && other_vv.spec_get(c)
                        < log_end(self.ops_of(c)),
                forall|c: ClientID| #[trigger]
                    ans@.contains_key(c) ==> is_export_of(self.ops_of(c), other_vv.spec_get(c) as int, ans@[c]@),
            decreases keys.len() - k,
        {
            let client = keys[k];
            proof {
                assert(keys@.take(k as int + 1) =~= keys@.take(k as int).push(client));
                assert(keys@.to_set().contains(client));
            }
            let target = other_vv.get(client);
            let end = self.end_of(client);
            if target < end {
                let vec = fx_map_get(&self.map, client).unwrap();
                let exported = export_log(vec, client, target);
                fx_map_insert(&mut ans, client, exported);
            }
            proof {
                assert forall|c: ClientID| #[trigger]
                    ans@.contains_key(c) <==> keys@.take(k as int + 1).contains(c) && other_vv.spec_get(c)
                        < log_end(self.ops_of(c)) by {
                    if c == client {
                        assert(keys@.take(k as int + 1).contains(c));
                    }
                }
            }
            k = k + 1;
        }
        proof {
            assert(keys@.take(keys.len() as int) =~= keys@);
            assert forall|c: ClientID| #[trigger]
                ans@.contains_key(c) <==> self.map@.contains_key(c) && other_vv.spec_get(c) < log_end(
                    self.ops_of(c),
                ) by {
                if self.map@.contains_key(c) {
                    assert(keys@.to_set().contains(c));
                }
                if keys@.contains(c) {
                    assert(keys@.to_set().contains(c));
                }
            }
        }
        ans
    }
}

/// The part of a history `ops` from counter `target` on.
fn export_log(ops: &Vec<Op>, c: ClientID, target: Counter) -> (r: Vec<Op>)
    requires
        log_wf(ops@, c),
        target < log_end(ops@),
    ensures
        is_export_of(ops@, target as int, r@),
{
    let n = ops.len();
    // the last operation that starts at or before `target`
    let mut lo: usize = 0;
    let mut hi: usize = n;
    while lo + 1 < hi
        invariant
            log_wf(ops@, c),
            n == ops@.len(),
            0 <= lo < hi <= n,
            ops@[lo as int].id.counter <= target,
            hi < n ==> ops@[hi as int].id.counter > target,
        decreases hi - lo,
    {
        let mid = lo + (hi - lo) / 2;
        if ops[mid].id.counter <= target {
            lo = mid;
        } else {
            hi = mid;
        }
    }
    let i = lo;
    proof {
        if i + 1 < n {
            assert(ops@[i + 1].id.counter == ops@[i as int].id.counter + op_len(ops@[i as int]));
            if hi > i + 1 {
                lemma_log_sorted(ops@, c, i as int + 1, hi as int);
            }
        }
        assert(op_wf(ops@[i as int]));
    }
    let first = &ops[i];
    let mut res: Vec<Op> = Vec::new();
    if first.id.counter < target {
        let len = first.rle_len();
        res.push(first.slice((target - first.id.counter) as usize, len));
    } else {
        res.push(first.clone());
    }
    let mut j: usize = i + 1;
    while j < n
        invariant
            n == ops@.len(),
            i < j <= n,
            res@.len() == j - i,
            forall|t: int| 0 < t < res@.len() ==> #[trigger] res@[t] == ops@[i + t],
            if ops@[i as int].id.counter == target {
                res@[0] == ops@[i as int]
            } else {
                is_op_slice(
                    ops@[i as int],
                    target - ops@[i as int].id.counter,
                    op_len(ops@[i as int]) as int,
                    res@[0],
                )
            },
        decreases n - j,
    {
        res.push(ops[j].clone());
        j = j + 1;
    }
    proof {
        assert(ops@[i as int].id.counter <= target < ops@[i as int].id.counter + op_len(ops@[i as int]));
    }
    res
}

/// For two deletions, whether the merged run keeps lengths and counters in
/// the `i32` range; other operations always fit.
fn merged_run_fits(a: &Op, b: &Op) -> (r: bool)
    requires
        op_wf(*a),
        op_wf(*b),
    ensures
        r == (merge_fits(*a, *b) && match (a.content, b.content) {
            (OpContent::Del(x), OpContent::Del(y)) => del_fits(
                DeleteOp { start: x.start, len: spec_merged_len(x, y) as i32 },
            ),
            _ => true,
        }),
{
    match (&a.content, &b.content) {
        (OpContent::Del(x), OpContent::Del(y)) => {
            let bl: i64 = if y.len < 0 {
                -(y.len as i64)
            } else {
                y.len as i64
            };
            let m: i64 = if x.len > 1 {
                x.len as i64 + bl
            } else if x.len < -1 {
                x.len as i64 - bl
            } else if y.start.counter > x.start.counter {
                bl + 1
            } else {
                -bl - 1
            };
            if !(i32::MIN as i64 <= m && m <= i32::MAX as i64) {
                return false;
            }
            if m == 0 || m == i32::MIN as i64 {
                return false;
            }
            let c: i64 = x.start.counter as i64;
            let lo: i64 = if m > 0 {
                c
            } else {
                c + m + 1
            };
            let hi: i64 = if m > 0 {
                c + m
            } else {
                c + 1
            };
            0 <= lo && hi <= i32::MAX as i64
        },
        _ => true,
    }
}

/// Merging a deletion keeps the operation well-formed when the merged run
/// fits (as [`OpStore::can_store`] asks).
proof fn lemma_merged_len_abs_op(a: Op, b: Op, m: Op)
    requires
        op_wf(a),
        op_wf(b),
        spec_op_can_merge(a, b),
        spec_merged_content_ok(a, b, m),
        op_len(m) == op_len(a) + op_len(b),
        match (a.content, b.content) {
            (OpContent::Del(x), OpContent::Del(y)) => del_fits(
                DeleteOp { start: x.start, len: spec_merged_len(x, y) as i32 },
            ),
            _ => true,
        },
    ensures
        op_wf(m),
{
}

/// A run of operations of peer `c` that continues a history ending at
/// `start`: well-formed, each starting where the previous one ends.
pub open spec fn is_run(ops: Seq<Op>, c: ClientID, start: int) -> bool {
    &&& forall|j: int| 0 <= j < ops.len() ==> op_wf(#[trigger] ops[j]) && ops[j].id.client == c
    &&& ops.len() > 0 ==> ops[0].id.counter == start
    &&& forall|j: int|
        0 < j < ops.len() ==> #[trigger] ops[j].id.counter == ops[j - 1].id.counter + op_len(
            ops[j - 1],
        )
}

/// Where a run that starts at `start` ends.
pub open spec fn run_end(ops: Seq<Op>, start: int) -> int {
    if ops.len() == 0 {
        start
    } else {
        ops.last().id.counter + op_len(ops.last())
    }
}

/// Whether `op` is well-formed (see [`op_wf`]).
pub fn op_wf_exec(op: &Op) -> (b: bool)
    ensures
        b == op_wf(*op),
{
    let len: u64 = match &op.content {
        OpContent::Ann(_) => 1,
        OpContent::Text(t) => bytes_len(&t.text) as u64,
        OpContent::Del(d) => {
            if d.len == i32::MIN {
                return false;
            }
            if d.len < 0 {
                (-(d.len as i64)) as u64
            } else {
                d.len as u64
            }
        },
    };
    if len < 1 || len > u32::MAX as u64 {
        return false;
    }
    if op.id.counter as u64 + len > u32::MAX as u64 || op.lamport as u64 + len
        > u32::MAX as u64 {
        return false;
    }
    match &op.content {
        OpContent::Del(d) => {
            let c: i64 = d.start.counter as i64;
            let l: i64 = d.len as i64;
            let lo: i64 = if l > 0 {
                c
            } else {
                c + l + 1
            };
            let hi: i64 = if l > 0 {
                c + l
            } else {
                c + 1
            };
            l != 0 && 0 <= lo && hi <= i32::MAX as i64
        },
        _ => true,
    }
}

/// A part of a well-formed operation is well-formed, and uses as many ids as
/// the part's length.
pub proof fn lemma_slice_wf(op: Op, start: int, end: int, r: Op)
    requires
        op_wf(op),
        0 <= start < end <= op_len(op),
        is_op_slice(op, start, end, r),
    ensures
        op_wf(r),
        op_len(r) == end - start,
{
    match (op.content, r.content) {
        (OpContent::Del(d), OpContent::Del(e)) => {
            if d.len < 0 {
                assert(d.start.counter - start >= 0);
                assert(spec_shift_counter(d.start.counter, -start) == d.start.counter - start);
            }
        },
        _ => {},
    }
}

/// What [`OpStore::export`] sends of a history is a run from the receiver's
/// end to the end of the history.
pub proof fn lemma_export_is_run(ops: Seq<Op>, c: ClientID, target: int, r: Seq<Op>)
    requires
        log_wf(ops, c),
        is_export_of(ops, target, r),
    ensures
        is_run(r, c, target),
        run_end(r, target) == log_end(ops),
        r.len() > 0,
{
    let i = choose|i: int|
        #![trigger ops[i]]
        0 <= i < ops.len() && ops[i].id.counter <= target < ops[i].id.counter + op_len(ops[i])
            && r.len() == ops.len() - i && (forall|j: int|
            0 < j < r.len() ==> #[trigger] r[j] == ops[i + j]) && if ops[i].id.counter == target {
            r[0] == ops[i]
        } else {
            is_op_slice(ops[i], target - ops[i].id.counter, op_len(ops[i]) as int, r[0])
        };
    assert(op_wf(ops[i]) && ops[i].id.client == c);
    if ops[i].id.counter != target {
        lemma_slice_wf(ops[i], target - ops[i].id.counter, op_len(ops[i]) as int, r[0]);
    }
    assert(r[0].id.counter + op_len(r[0]) == ops[i].id.counter + op_len(ops[i]));
    assert forall|j: int| 0 <= j < r.len() implies op_wf(#[trigger] r[j]) && r[j].id.client == c by {
        if j > 0 {
            assert(r[j] == ops[i + j]);
            assert(op_wf(ops[i + j]));
        }
    }
    assert forall|j: int| 0 < j < r.len() implies #[trigger] r[j].id.counter == r[j - 1].id.counter
        + op_len(r[j - 1]) by {
        assert(r[j] == ops[i + j]);
        assert(ops[i + j].id.counter == ops[i + j - 1].id.counter + op_len(ops[i + j - 1]));
        if j > 1 {
            assert(r[j - 1] == ops[i + j - 1]);
        }
    }
    if r.len() > 1 {
        assert(r.last() == ops[i + r.len() - 1]);
        assert(ops.last() == ops[ops.len() - 1]);
    }
}

} // verus!
