//! A range map kept as a plain list of spans: each span is a run of units
//! (characters) with the set of annotations active on it. Spans of length 0
//! sit between units and remember annotations whose range became empty.
use std::sync::Arc;
use vstd::prelude::*;

use crate::fx::arc_ann_clone;
use crate::{Annotation, OpID};

verus! {

broadcast use vstd::seq_lib::group_seq_properties;

/// Where an annotation lies relative to a new insertion at its edge.
#[derive(Debug, Clone, Copy, PartialEq, Eq)]
pub enum AnnPosRelativeToInsert {
    Before,
    After,
    IncludeInsert,
}

/// A run of `len` units with the annotations active on them.
pub struct Span {
    pub annotations: Vec<Arc<Annotation>>,
    pub len: usize,
}

/// A place in the span list: span `index`, `offset` units into it.
pub struct Position {
    pub index: usize,
    pub offset: usize,
}

/// The ids of the annotations.
pub open spec fn ann_ids(v: Seq<Arc<Annotation>>) -> Set<OpID> {
    Set::new(|id: OpID| exists|i: int| 0 <= i < v.len() && (#[trigger] v[i]).id == id)
}

/// The units of a span: `len` copies of its annotation ids.
pub open spec fn span_units(s: Span) -> Seq<Set<OpID>> {
    Seq::new(s.len as nat, |i: int| ann_ids(s.annotations@))
}

/// The units of the spans, in order: for each unit, the ids of the
/// annotations active on it.
pub open spec fn units_of(arr: Seq<Span>) -> Seq<Set<OpID>>
    decreases arr.len(),
{
    if arr.len() == 0 {
        Seq::empty()
    } else {
        units_of(arr.drop_last()) + span_units(arr.last())
    }
}

/// The units of a concatenation are the concatenated units.
pub proof fn lemma_units_concat(a: Seq<Span>, b: Seq<Span>)
    ensures
        units_of(a + b) == units_of(a) + units_of(b),
    decreases b.len(),
{
    if b.len() == 0 {
        assert(a + b =~= a);
    } else {
        lemma_units_concat(a, b.drop_last());
        assert((a + b).drop_last() =~= a + b.drop_last());
    }
}

/// The units of one span.
pub proof fn lemma_units_single(s: Span)
    ensures
        units_of(seq![s]) == span_units(s),
{
    reveal_with_fuel(units_of, 2);
    assert(seq![s].drop_last() =~= Seq::<Span>::empty());
    assert(Seq::<Set<OpID>>::empty() + span_units(s) =~= span_units(s));
}

/// The units around span `i`.
pub proof fn lemma_units_split(arr: Seq<Span>, i: int)
    requires
        0 <= i < arr.len(),
    ensures
        units_of(arr) == units_of(arr.take(i)) + span_units(arr[i]) + units_of(arr.skip(i + 1)),
{
    assert(arr =~= arr.take(i) + seq![arr[i]] + arr.skip(i + 1));
    lemma_units_concat(arr.take(i) + seq![arr[i]], arr.skip(i + 1));
    lemma_units_concat(arr.take(i), seq![arr[i]]);
    lemma_units_single(arr[i]);
}

/// The units of a prefix of the spans are a prefix of the units.
pub proof fn lemma_units_prefix(arr: Seq<Span>, i: int)
    requires
        0 <= i <= arr.len(),
    ensures
        units_of(arr) == units_of(arr.take(i)) + units_of(arr.skip(i)),
{
    assert(arr =~= arr.take(i) + arr.skip(i));
    lemma_units_concat(arr.take(i), arr.skip(i));
}

impl Span {
    /// A span of `len` units with no annotation.
    pub fn new(len: usize) -> (s: Span)
        ensures
            s.len == len,
            s.annotations@ == Seq::<Arc<Annotation>>::empty(),
    {
        Span { annotations: Vec::new(), len }
    }

    /// A copy of the span.
    pub fn clone_span(&self) -> (s: Span)
        ensures
            s.len == self.len,
            s.annotations@ == self.annotations@,
    {
        Span { annotations: clone_anns(&self.annotations), len: self.len }
    }
}

/// A copy of the annotation handles.
fn clone_anns(v: &Vec<Arc<Annotation>>) -> (r: Vec<Arc<Annotation>>)
    ensures
        r@ == v@,
{
    let mut r: Vec<Arc<Annotation>> = Vec::new();
    let mut i: usize = 0;
    while i < v.len()
        invariant
            0 <= i <= v@.len(),
            r@ == v@.take(i as int),
        decreases v@.len() - i,
    {
        r.push(arc_ann_clone(&v[i]));
        proof {
            assert(v@.take(i as int + 1) =~= v@.take(i as int).push(v@[i as int]));
        }
        i = i + 1;
    }
    proof {
        assert(v@.take(v@.len() as int) =~= v@);
    }
    r
}

/// Whether an annotation with id `id` is in the list.
fn contains_id(v: &Vec<Arc<Annotation>>, id: OpID) -> (b: bool)
    ensures
        b == ann_ids(v@).contains(id),
{
    let mut i: usize = 0;
    while i < v.len()
        invariant
            0 <= i <= v@.len(),
            forall|j: int| 0 <= j < i ==> (#[trigger] v@[j]).id != id,
        decreases v@.len() - i,
    {
        if v[i].id == id {
            proof {
                assert(v@[i as int].id == id);
            }
            return true;
        }
        i = i + 1;
    }
    false
}

/// Adds `a` to the list unless an annotation with its id is there.
fn insert_ann(v: &mut Vec<Arc<Annotation>>, a: Arc<Annotation>)
    ensures
        ann_ids(final(v)@) == ann_ids(old(v)@).insert(a.id),
{
    if !contains_id(v, a.id) {
        let ghost v0 = v@;
        v.push(a);
        proof {
            assert forall|id: OpID| ann_ids(v@).contains(id) <==> ann_ids(v0).insert(a.id).contains(id) by {
                if ann_ids(v0).contains(id) {
                    let i = choose|i: int| 0 <= i < v0.len() && (#[trigger] v0[i]).id == id;
                    assert(v@[i] == v0[i]);
                }
                if ann_ids(v@).contains(id) && id != a.id {
                    let i = choose|i: int| 0 <= i < v@.len() && (#[trigger] v@[i]).id == id;
                    assert(v0[i] == v@[i]);
                }
                if id == a.id {
                    assert(v@[v0.len() as int].id == id);
                }
            }
            assert(ann_ids(v@) =~= ann_ids(v0).insert(a.id));
        }
    } else {
        proof {
            assert(ann_ids(v@) =~= ann_ids(v@).insert(a.id));
        }
    }
}

/// Removes the annotations with id `id`.
fn remove_id(v: &mut Vec<Arc<Annotation>>, id: OpID)
    ensures
        ann_ids(final(v)@) == ann_ids(old(v)@).remove(id),
{
    let ghost v0 = v@;
    let mut r: Vec<Arc<Annotation>> = Vec::new();
    let mut i: usize = 0;
    while i < v.len()
        invariant
            v@ == v0,
            0 <= i <= v0.len(),
            ann_ids(r@) == ann_ids(v0.take(i as int)).remove(id),
        decreases v0.len() - i,
    {
        let ghost r0 = r@;
        if v[i].id != id {
            r.push(arc_ann_clone(&v[i]));
        }
        proof {
            let t = v0.take(i as int + 1);
            assert(t =~= v0.take(i as int).push(v0[i as int]));
            assert forall|x: OpID| ann_ids(r@).contains(x) <==> ann_ids(t).remove(id).contains(x) by {
                if ann_ids(r@).contains(x) {
                    let k = choose|k: int| 0 <= k < r@.len() && (#[trigger] r@[k]).id == x;
                    if k < r0.len() {
                        assert(r0[k] == r@[k]);
                        assert(ann_ids(r0).contains(x));
                        let j = choose|j: int| 0 <= j < v0.take(i as int).len() && (#[trigger] v0.take(i as int)[j]).id == x;
                        assert(t[j] == v0.take(i as int)[j]);
                    } else {
                        assert(t[i as int].id == x);
                    }
                }
                if ann_ids(t).remove(id).contains(x) {
                    let j = choose|j: int| 0 <= j < t.len() && (#[trigger] t[j]).id == x;
                    if j < i {
                        assert(v0.take(i as int)[j] == t[j]);
                        assert(ann_ids(r0).contains(x));
                        let k = choose|k: int| 0 <= k < r0.len() && (#[trigger] r0[k]).id == x;
                        assert(r@[k] == r0[k]);
                    } else {
                        assert(r@[r0.len() as int].id == x);
                    }
                }
            }
            assert(ann_ids(r@) =~= ann_ids(t).remove(id));
        }
        i = i + 1;
    }
    proof {
        assert(v0.take(v0.len() as int) =~= v0);
    }
    *v = r;
}

/// Adds all annotations of `b` to `a`.
fn append_anns(a: &mut Vec<Arc<Annotation>>, b: &Vec<Arc<Annotation>>)
    ensures
        ann_ids(final(a)@) == ann_ids(old(a)@).union(ann_ids(b@)),
{
    let ghost a0 = a@;
    let mut i: usize = 0;
    proof {
        assert(ann_ids(a@) =~= ann_ids(a0).union(ann_ids(b@.take(0))));
    }
    while i < b.len()
        invariant
            0 <= i <= b@.len(),
            ann_ids(a@) == ann_ids(a0).union(ann_ids(b@.take(i as int))),
        decreases b@.len() - i,
    {
        insert_ann(a, arc_ann_clone(&b[i]));
        proof {
            let t = b@.take(i as int + 1);
            assert(t =~= b@.take(i as int).push(b@[i as int]));
            assert forall|x: OpID| ann_ids(t).contains(x) <==> ann_ids(b@.take(i as int)).insert(b@[i as int].id).contains(x) by {
                if ann_ids(t).contains(x) {
                    let j = choose|j: int| 0 <= j < t.len() && (#[trigger] t[j]).id == x;
                    if j < i {
                        assert(b@.take(i as int)[j] == t[j]);
                    }
                }
                if ann_ids(b@.take(i as int)).contains(x) {
                    let j = choose|j: int| 0 <= j < i && (#[trigger] b@.take(i as int)[j]).id == x;
                    assert(t[j] == b@.take(i as int)[j]);
                }
                if x == b@[i as int].id {
                    assert(t[i as int].id == x);
                }
            }
            assert(ann_ids(t) =~= ann_ids(b@.take(i as int)).insert(b@[i as int].id));
            assert(ann_ids(a@) =~= ann_ids(a0).union(ann_ids(t)));
        }
        i = i + 1;
    }
    proof {
        assert(b@.take(b@.len() as int) =~= b@);
    }
}

/// Whether the two lists hold annotations with the same ids, in the same
/// order.
fn same_ids(a: &Vec<Arc<Annotation>>, b: &Vec<Arc<Annotation>>) -> (r: bool)
    ensures
        r ==> ann_ids(a@) == ann_ids(b@),
{
    if a.len() != b.len() {
        return false;
    }
    let mut i: usize = 0;
    while i < a.len()
        invariant
            a@.len() == b@.len(),
            0 <= i <= a@.len(),
            forall|j: int| 0 <= j < i ==> (#[trigger] a@[j]).id == b@[j].id,
        decreases a@.len() - i,
    {
        if a[i].id != b[i].id {
            return false;
        }
        i = i + 1;
    }
    proof {
        assert forall|x: OpID| ann_ids(a@).contains(x) <==> ann_ids(b@).contains(x) by {
            if ann_ids(a@).contains(x) {
                let j = choose|j: int| 0 <= j < a@.len() && (#[trigger] a@[j]).id == x;
                assert(b@[j].id == x);
            }
            if ann_ids(b@).contains(x) {
                let j = choose|j: int| 0 <= j < b@.len() && (#[trigger] b@[j]).id == x;
                assert(a@[j].id == x);
            }
        }
        assert(ann_ids(a@) =~= ann_ids(b@));
    }
    true
}

/// Spans all of length 0 hold no unit.
pub proof fn lemma_units_empty(arr: Seq<Span>)
    requires
        forall|j: int| 0 <= j < arr.len() ==> (#[trigger] arr[j]).len == 0,
    ensures
        units_of(arr) == Seq::<Set<OpID>>::empty(),
    decreases arr.len(),
{
    if arr.len() > 0 {
        lemma_units_empty(arr.drop_last());
        assert(span_units(arr.last()) =~= Seq::<Set<OpID>>::empty());
    }
}

/// Changing the length of span `i` changes only its units.
pub proof fn lemma_units_update(arr: Seq<Span>, i: int, s: Span)
    requires
        0 <= i < arr.len(),
    ensures
        units_of(arr.update(i, s)) == units_of(arr.take(i)) + span_units(s) + units_of(arr.skip(i + 1)),
{
    let b = arr.update(i, s);
    lemma_units_split(b, i);
    assert(b.take(i) =~= arr.take(i));
    assert(b.skip(i + 1) =~= arr.skip(i + 1));
}

/// A list of spans that keeps its length in units.
pub struct DumbRangeMap {
    arr: Vec<Span>,
    len: usize,
}

impl DumbRangeMap {
    /// The spans, in order.
    pub closed spec fn spans(&self) -> Seq<Span> {
        self.arr@
    }

    /// For each unit, the ids of the annotations active on it.
    pub open spec fn units(&self) -> Seq<Set<OpID>> {
        units_of(self.spans())
    }

    /// The stored length is the number of units.
    pub closed spec fn wf(&self) -> bool {
        self.len == units_of(self.arr@).len()
    }

    /// The number of units.
    pub closed spec fn spec_len(&self) -> nat {
        self.len as nat
    }

    /// An empty map.
    pub fn init() -> (r: Self)
        ensures
            r.wf(),
            r.spans() == Seq::<Span>::empty(),
            r.units() == Seq::<Set<OpID>>::empty(),
            r.spec_len() == 0,
    {
        DumbRangeMap { arr: Vec::new(), len: 0 }
    }

    /// The number of units.
    pub fn len(&self) -> (n: usize)
        requires
            self.wf(),
        ensures
            n == self.units().len(),
            n == self.spec_len(),
    {
        self.len
    }

    /// The span and offset of unit `char_index`; spans of length 0 are
    /// passed over, and the end of the map is the end of the last span.
    pub fn find_pos(&self, char_index: usize) -> (p: Position)
        requires
            self.wf(),
            char_index <= self.units().len(),
        ensures
            self.spans().len() == 0 ==> p.index == 0 && p.offset == 0,
            self.spans().len() > 0 ==> {
                &&& p.index < self.spans().len()
                &&& p.offset <= self.spans()[p.index as int].len
                &&& units_of(self.spans().take(p.index as int)).len() + p.offset == char_index
                &&& p.offset < self.spans()[p.index as int].len || p.index == self.spans().len() - 1
            },
    {
        let n = self.arr.len();
        if n == 0 {
            return Position { index: 0, offset: 0 };
        }
        let mut index: usize = 0;
        let mut i: usize = 0;
        proof {
            assert(self.arr@.take(0) =~= Seq::<Span>::empty());
        }
        while i < n
            invariant
                n == self.arr@.len(),
                0 <= i <= n,
                index == units_of(self.arr@.take(i as int)).len(),
                index <= char_index,
                char_index <= units_of(self.arr@).len(),
                units_of(self.arr@).len() == self.len,
            decreases n - i,
        {
            proof {
                assert(self.arr@.take(i as int + 1).drop_last() =~= self.arr@.take(i as int));
                lemma_units_prefix(self.arr@, i as int + 1);
            }
            let len = self.arr[i].len;
            proof {
                assert(units_of(self.arr@.take(i as int + 1)).len() == index + len);
            }
            if index + len > char_index {
                return Position { index: i, offset: char_index - index };
            }
            index = index + len;
            i = i + 1;
        }
        proof {
            assert(self.arr@.take(n as int) =~= self.arr@);
            assert(self.arr@.take(n as int - 1) =~= self.arr@.drop_last());
        }
        Position { index: n - 1, offset: self.arr[n - 1].len }
    }
}

/// Sets the length of span `i`.
fn set_len(arr: &mut Vec<Span>, i: usize, len: usize)
    requires
        i < old(arr)@.len(),
    ensures
        final(arr)@.len() == old(arr)@.len(),
        final(arr)@[i as int].len == len,
        final(arr)@[i as int].annotations == old(arr)@[i as int].annotations,
        forall|j: int| 0 <= j < old(arr)@.len() && j != i ==> #[trigger] final(arr)@[j] == old(arr)@[j],
        final(arr)@ == old(arr)@.update(i as int, final(arr)@[i as int]),
{
    let mut sp = arr.remove(i);
    sp.len = len;
    arr.insert(i, sp);
    proof {
        assert(arr@ =~= old(arr)@.update(i as int, arr@[i as int]));
    }
}

/// Cutting `k` units of span `i` at offset `o` cuts them out of the units.
proof fn lemma_cut(a: Seq<Span>, i: int, s: Span, o: int, k: int)
    requires
        0 <= i < a.len(),
        0 <= o,
        0 <= k,
        o + k <= a[i].len,
        s.annotations == a[i].annotations,
        s.len == a[i].len - k,
    ensures
        units_of(a.update(i, s)) == units_of(a).take(units_of(a.take(i)).len() + o) + units_of(a).skip(
            units_of(a.take(i)).len() + o + k,
        ),
{
    lemma_units_split(a, i);
    lemma_units_update(a, i, s);
    let p = units_of(a.take(i));
    let q = units_of(a.skip(i + 1));
    let cur = units_of(a);
    let pl = p.len() + o;
    assert(cur.take(pl) =~= p + span_units(a[i]).take(o));
    assert(cur.skip(pl + k) =~= span_units(a[i]).skip(o + k) + q);
    assert(span_units(s) =~= span_units(a[i]).take(o) + span_units(a[i]).skip(o + k));
}

/// Dropping `k` more units after `pos`.
proof fn lemma_drop_more(u: Seq<Set<OpID>>, pos: int, d: int, k: int)
    requires
        0 <= pos,
        0 <= d,
        0 <= k,
        pos + d + k <= u.len(),
    ensures
        (u.take(pos) + u.skip(pos + d)).take(pos) + (u.take(pos) + u.skip(pos + d)).skip(pos + k) == u.take(pos)
            + u.skip(pos + d + k),
{
    let c = u.take(pos) + u.skip(pos + d);
    assert(c.take(pos) =~= u.take(pos));
    assert(c.skip(pos + k) =~= u.skip(pos + d + k));
}

/// The units `u` with `n` units, each with the annotations `s`, put at
/// `pos`.
pub open spec fn with_units(u: Seq<Set<OpID>>, pos: int, n: nat, s: Set<OpID>) -> Seq<Set<OpID>> {
    u.take(pos) + Seq::new(n, |i: int| s) + u.skip(pos)
}

/// The units after inserting span `s` at `i`.
pub proof fn lemma_units_insert(a: Seq<Span>, i: int, s: Span)
    requires
        0 <= i <= a.len(),
    ensures
        units_of(a.insert(i, s)) == units_of(a.take(i)) + span_units(s) + units_of(a.skip(i)),
{
    assert(a.insert(i, s) =~= a.take(i) + seq![s] + a.skip(i));
    lemma_units_concat(a.take(i) + seq![s], a.skip(i));
    lemma_units_concat(a.take(i), seq![s]);
    lemma_units_single(s);
}

/// Growing span `i` by `k` units puts `k` units with its annotations at
/// offset `o` of it.
proof fn lemma_grow(a: Seq<Span>, i: int, s: Span, o: int, k: int)
    requires
        0 <= i < a.len(),
        0 <= o <= a[i].len,
        0 <= k,
        s.annotations == a[i].annotations,
        s.len == a[i].len + k,
    ensures
        units_of(a.update(i, s)) == units_of(a).take(units_of(a.take(i)).len() + o) + Seq::new(
            k as nat,
            |j: int| ann_ids(a[i].annotations@),
        ) + units_of(a).skip(units_of(a.take(i)).len() + o),
{
    lemma_units_split(a, i);
    lemma_units_update(a, i, s);
    let p = units_of(a.take(i));
    let q = units_of(a.skip(i + 1));
    let cur = units_of(a);
    let pl = p.len() + o;
    assert(cur.take(pl) =~= p + span_units(a[i]).take(o));
    assert(cur.skip(pl) =~= span_units(a[i]).skip(o) + q);
    assert(span_units(s) =~= span_units(a[i]).take(o) + Seq::new(k as nat, |j: int| ann_ids(a[i].annotations@))
        + span_units(a[i]).skip(o));
}

/// Sets the annotations of span `i`.
fn set_anns(arr: &mut Vec<Span>, i: usize, anns: Vec<Arc<Annotation>>)
    requires
        i < old(arr)@.len(),
    ensures
        final(arr)@.len() == old(arr)@.len(),
        final(arr)@[i as int].len == old(arr)@[i as int].len,
        final(arr)@[i as int].annotations@ == anns@,
        final(arr)@ == old(arr)@.update(i as int, final(arr)@[i as int]),
{
    let mut sp = arr.remove(i);
    sp.annotations = anns;
    arr.insert(i, sp);
    proof {
        assert(arr@ =~= old(arr)@.update(i as int, arr@[i as int]));
    }
}

/// Keeps in `shared` the annotations whose ids `other` holds.
fn retain_shared(shared: &mut Vec<Arc<Annotation>>, other: &Vec<Arc<Annotation>>) {
    let mut r: Vec<Arc<Annotation>> = Vec::new();
    let mut i: usize = 0;
    while i < shared.len()
        decreases shared@.len() - i,
    {
        if contains_id(other, shared[i].id) {
            r.push(arc_ann_clone(&shared[i]));
        }
        i = i + 1;
    }
    *shared = r;
}

/// `x` brought into `lo..=hi`.
pub open spec fn clamp(x: int, lo: int, hi: int) -> int {
    if x < lo {
        lo
    } else if x > hi {
        hi
    } else {
        x
    }
}

/// The units `u` with `id` added to those in `start..end`.
pub open spec fn marked(u: Seq<Set<OpID>>, start: int, end: int, id: OpID) -> Seq<Set<OpID>> {
    Seq::new(u.len(), |k: int| if start <= k < end { u[k].insert(id) } else { u[k] })
}

/// The number of units of the first `x` spans grows with `x`.
proof fn lemma_prefix_mono(a: Seq<Span>, x: int, y: int)
    requires
        0 <= x <= y <= a.len(),
    ensures
        units_of(a.take(x)).len() <= units_of(a.take(y)).len(),
{
    lemma_units_prefix(a.take(y), x);
    assert(a.take(y).take(x) =~= a.take(x));
}

/// Spans with the lengths of `a`, with `id` added to spans `lo..hi`, hold
/// the units of `a` with `id` added to the units of those spans.
#[verifier::rlimit(60)]
#[verifier::spinoff_prover]
proof fn lemma_units_mark(a: Seq<Span>, b: Seq<Span>, lo: int, hi: int, id: OpID)
    requires
        0 <= lo <= hi <= a.len(),
        b.len() == a.len(),
        forall|j: int| 0 <= j < a.len() ==> (#[trigger] b[j]).len == a[j].len,
        forall|j: int|
            0 <= j < a.len() ==> ann_ids((#[trigger] b[j]).annotations@) == if lo <= j < hi {
                ann_ids(a[j].annotations@).insert(id)
            } else {
                ann_ids(a[j].annotations@)
            },
    ensures
        units_of(b) == marked(units_of(a), units_of(a.take(lo)).len() as int, units_of(a.take(hi)).len() as int, id),
    decreases a.len(),
{
    if a.len() == 0 {
        assert(units_of(b) =~= marked(units_of(a), units_of(a.take(lo)).len() as int, units_of(a.take(hi)).len() as int, id));
    } else {
        let n = a.len() - 1;
        let a1 = a.drop_last();
        let b1 = b.drop_last();
        let lo1 = if lo > n { n } else { lo };
        let hi1 = if hi > n { n } else { hi };
        lemma_units_mark(a1, b1, lo1, hi1, id);
        assert(a1.take(lo1) =~= a.take(lo1));
        assert(a1.take(hi1) =~= a.take(hi1));
        assert(a.take(n) =~= a1);
        assert(a.take(n + 1) =~= a);
        lemma_prefix_mono(a, lo, hi);
        lemma_prefix_mono(a, lo1, n);
        lemma_prefix_mono(a, hi1, n);
        if lo <= n {
            lemma_prefix_mono(a, lo, n);
        }
        if hi <= n {
            lemma_prefix_mono(a, hi, n);
        }
        let ua = units_of(a);
        let ua1 = units_of(a1);
        let pl = units_of(a.take(lo)).len() as int;
        let ph = units_of(a.take(hi)).len() as int;
        let m = marked(ua, pl, ph, id);
        assert(span_units(b[n]) =~= if lo <= n < hi {
            Seq::new(a[n].len as nat, |k: int| ann_ids(a[n].annotations@).insert(id))
        } else {
            span_units(a[n])
        });
        assert forall|k: int| 0 <= k < m.len() implies #[trigger] units_of(b)[k] == m[k] by {
            if k < ua1.len() {
                assert(units_of(b)[k] == units_of(b1)[k]);
                assert(ua[k] == ua1[k]);
            } else {
                assert(units_of(b)[k] == span_units(b[n])[k - ua1.len()]);
                assert(ua[k] == span_units(a[n])[k - ua1.len()]);
            }
        }
        assert(units_of(b) =~= m);
    }
}

/// Cutting span `i` at offset `o` into two spans keeps the units.
proof fn lemma_split_keeps(a: Seq<Span>, i: int, l: Span, r: Span)
    requires
        0 <= i < a.len(),
        l.annotations@ == a[i].annotations@,
        r.annotations@ == a[i].annotations@,
        l.len + r.len == a[i].len,
    ensures
        units_of(a.update(i, l).insert(i + 1, r)) == units_of(a),
{
    let b = a.update(i, l).insert(i + 1, r);
    assert(b =~= a.take(i) + seq![l, r] + a.skip(i + 1));
    assert(seq![l, r] =~= seq![l] + seq![r]);
    lemma_units_concat(a.take(i) + seq![l, r], a.skip(i + 1));
    lemma_units_concat(a.take(i), seq![l, r]);
    lemma_units_concat(seq![l], seq![r]);
    lemma_units_single(l);
    lemma_units_single(r);
    lemma_units_split(a, i);
    assert(span_units(l) + span_units(r) =~= span_units(a[i]));
}

/// Appends `span`, merging it into the last span when both hold the same
/// annotations (or both are empty).
fn push_span(arr: &mut Vec<Span>, span: Span)
    requires
        units_of(old(arr)@).len() + span.len <= usize::MAX,
    ensures
        units_of(final(arr)@) == units_of(old(arr)@) + span_units(span),
{
    let ghost a = arr@;
    let n = arr.len();
    if n > 0 {
        proof {
            lemma_units_split(a, n - 1);
            assert(a.skip(n as int) =~= Seq::<Span>::empty());
            assert(a.take(n - 1) =~= a.drop_last());
        }
        if same_ids(&arr[n - 1].annotations, &span.annotations) {
            let l = arr[n - 1].len;
            set_len(arr, n - 1, l + span.len);
            proof {
                lemma_units_update(a, n - 1, arr@[n - 1]);
                assert(span_units(arr@[n - 1]) =~= span_units(a[n - 1]) + span_units(span));
                assert(units_of(arr@) =~= units_of(a) + span_units(span));
            }
            return;
        }
        if arr[n - 1].len == 0 && span.len == 0 {
            let mut anns = clone_anns(&arr[n - 1].annotations);
            append_anns(&mut anns, &span.annotations);
            set_anns(arr, n - 1, anns);
            proof {
                lemma_units_update(a, n - 1, arr@[n - 1]);
                assert(span_units(arr@[n - 1]) =~= Seq::<Set<OpID>>::empty());
                assert(span_units(a[n - 1]) =~= Seq::<Set<OpID>>::empty());
                assert(span_units(span) =~= Seq::<Set<OpID>>::empty());
                assert(units_of(arr@) =~= units_of(a) + span_units(span));
            }
            return;
        }
    }
    let ghost sp = span;
    arr.push(span);
    proof {
        assert(arr@ =~= a + seq![sp]);
        lemma_units_concat(a, seq![sp]);
        lemma_units_single(sp);
    }
}

/// Spans with the lengths of `a`, with `id` removed from each, hold the
/// units of `a` with `id` removed from each.
#[verifier::rlimit(60)]
#[verifier::spinoff_prover]
proof fn lemma_units_unmark(a: Seq<Span>, b: Seq<Span>, id: OpID)
    requires
        b.len() == a.len(),
        forall|j: int| 0 <= j < a.len() ==> (#[trigger] b[j]).len == a[j].len,
        forall|j: int| 0 <= j < a.len() ==> ann_ids((#[trigger] b[j]).annotations@) == ann_ids(a[j].annotations@).remove(id),
    ensures
        units_of(b) == Seq::new(units_of(a).len(), |k: int| units_of(a)[k].remove(id)),
    decreases a.len(),
{
    if a.len() > 0 {
        let n = a.len() - 1;
        lemma_units_unmark(a.drop_last(), b.drop_last(), id);
        let ua = units_of(a);
        let ua1 = units_of(a.drop_last());
        assert(span_units(b[n]) =~= Seq::new(a[n].len as nat, |k: int| ann_ids(a[n].annotations@).remove(id)));
        assert forall|k: int| 0 <= k < ua.len() implies #[trigger] units_of(b)[k] == ua[k].remove(id) by {
            if k < ua1.len() {
                assert(units_of(b)[k] == units_of(b.drop_last())[k]);
            } else {
                assert(units_of(b)[k] == span_units(b[n])[k - ua1.len()]);
                assert(ua[k] == span_units(a[n])[k - ua1.len()]);
            }
        }
        assert(units_of(b) =~= Seq::new(ua.len(), |k: int| ua[k].remove(id)));
    } else {
        assert(units_of(b) =~= Seq::new(units_of(a).len(), |k: int| units_of(a)[k].remove(id)));
    }
}

/// Whether span `i` holds annotation `id`.
pub open spec fn span_has(arr: Seq<Span>, i: int, id: OpID) -> bool {
    ann_ids(arr[i].annotations@).contains(id)
}

/// The units `u` with `id` taken from those in `start..end`.
pub open spec fn unmarked(u: Seq<Set<OpID>>, start: int, end: int, id: OpID) -> Seq<Set<OpID>> {
    Seq::new(u.len(), |k: int| if start <= k < end { u[k].remove(id) } else { u[k] })
}

/// The units after moving the end of annotation `id`, which ends at unit
/// `e`, by `shift` units (growing it when positive, shrinking it when
/// negative).
pub open spec fn end_moved(u: Seq<Set<OpID>>, e: int, shift: int, id: OpID) -> Seq<Set<OpID>> {
    if shift > 0 {
        marked(u, e, e + shift, id)
    } else if shift < 0 {
        unmarked(u, e + shift, e, id)
    } else {
        u
    }
}

/// The units after moving the start of annotation `id`, which starts at
/// unit `b`, by `shift` units (shrinking it when positive, growing it when
/// negative).
pub open spec fn start_moved(u: Seq<Set<OpID>>, b: int, shift: int, id: OpID) -> Seq<Set<OpID>> {
    if shift > 0 {
        unmarked(u, b, b + shift, id)
    } else if shift < 0 {
        marked(u, b + shift, b, id)
    } else {
        u
    }
}

/// Spans with the lengths of `a`, with `id` taken from spans `lo..hi`, hold
/// the units of `a` with `id` taken from the units of those spans.
#[verifier::rlimit(60)]
#[verifier::spinoff_prover]
proof fn lemma_units_unmark_range(a: Seq<Span>, b: Seq<Span>, lo: int, hi: int, id: OpID)
    requires
        0 <= lo <= hi <= a.len(),
        b.len() == a.len(),
        forall|j: int| 0 <= j < a.len() ==> (#[trigger] b[j]).len == a[j].len,
        forall|j: int|
            0 <= j < a.len() ==> ann_ids((#[trigger] b[j]).annotations@) == if lo <= j < hi {
                ann_ids(a[j].annotations@).remove(id)
            } else {
                ann_ids(a[j].annotations@)
            },
    ensures
        units_of(b) == unmarked(units_of(a), units_of(a.take(lo)).len() as int, units_of(a.take(hi)).len() as int, id),
    decreases a.len(),
{
    if a.len() == 0 {
        assert(units_of(b) =~= unmarked(units_of(a), units_of(a.take(lo)).len() as int, units_of(a.take(hi)).len() as int, id));
    } else {
        let n = a.len() - 1;
        let a1 = a.drop_last();
        let b1 = b.drop_last();
        let lo1 = if lo > n { n } else { lo };
        let hi1 = if hi > n { n } else { hi };
        lemma_units_unmark_range(a1, b1, lo1, hi1, id);
        assert(a1.take(lo1) =~= a.take(lo1));
        assert(a1.take(hi1) =~= a.take(hi1));
        assert(a.take(n) =~= a1);
        assert(a.take(n + 1) =~= a);
        lemma_prefix_mono(a, lo, hi);
        lemma_prefix_mono(a, lo1, n);
        lemma_prefix_mono(a, hi1, n);
        if lo <= n {
            lemma_prefix_mono(a, lo, n);
        }
        if hi <= n {
            lemma_prefix_mono(a, hi, n);
        }
        let ua = units_of(a);
        let ua1 = units_of(a1);
        let pl = units_of(a.take(lo)).len() as int;
        let ph = units_of(a.take(hi)).len() as int;
        let m = unmarked(ua, pl, ph, id);
        assert(span_units(b[n]) =~= if lo <= n < hi {
            Seq::new(a[n].len as nat, |k: int| ann_ids(a[n].annotations@).remove(id))
        } else {
            span_units(a[n])
        });
        assert forall|k: int| 0 <= k < m.len() implies #[trigger] units_of(b)[k] == m[k] by {
            if k < ua1.len() {
                assert(units_of(b)[k] == units_of(b1)[k]);
                assert(ua[k] == ua1[k]);
            } else {
                assert(units_of(b)[k] == span_units(b[n])[k - ua1.len()]);
                assert(ua[k] == span_units(a[n])[k - ua1.len()]);
            }
        }
        assert(units_of(b) =~= m);
    }
}

/// The last span holding annotation `id`.
pub open spec fn last_span_with(arr: Seq<Span>, id: OpID) -> int {
    choose|i: int| 0 <= i < arr.len() && span_has(arr, i, id) && forall|j: int| i < j < arr.len() ==> !#[trigger] span_has(arr, j, id)
}

/// The first span holding annotation `id`.
pub open spec fn first_span_with(arr: Seq<Span>, id: OpID) -> int {
    choose|i: int| 0 <= i < arr.len() && span_has(arr, i, id) && forall|j: int| 0 <= j < i ==> !#[trigger] span_has(arr, j, id)
}

/// The unit where annotation `id` ends: after its last span.
pub open spec fn ann_end(arr: Seq<Span>, id: OpID) -> int {
    units_of(arr.take(last_span_with(arr, id) + 1)).len() as int
}

/// The unit where annotation `id` starts: at its first span.
pub open spec fn ann_start(arr: Seq<Span>, id: OpID) -> int {
    units_of(arr.take(first_span_with(arr, id))).len() as int
}

impl DumbRangeMap {
    /// Merges the first run of two or more spans of length 0 found from
    /// span `start_index - 1` on (looking at `max_len` spans, or all) into
    /// one span holding all their annotations.
    fn try_merge_empty_spans(&mut self, start_index: usize, max_len: Option<usize>)
        requires
            old(self).wf(),
        ensures
            final(self).wf(),
            final(self).units() == old(self).units(),
            final(self).len == old(self).len,
    {
        let n = self.arr.len();
        let m = match max_len {
            Some(m) => m,
            None => n,
        };
        let end = if start_index >= n {
            n
        } else if m > n - start_index {
            n
        } else {
            start_index + m
        };
        let mut empty_start: usize = 0;
        let mut empty_len: usize = 0;
        let mut i: usize = if start_index == 0 {
            0
        } else if start_index - 1 < end {
            start_index - 1
        } else {
            end
        };
        let mut stop = false;
        while i < end && !stop
            invariant
                n == self.arr@.len(),
                end <= n,
                i <= n,
                self.arr@ == old(self).arr@,
                empty_len > 0 ==> empty_start + empty_len <= i,
                empty_len > 0 && !stop ==> empty_start + empty_len == i,
                forall|j: int| empty_start <= j < empty_start + empty_len ==> (#[trigger] self.arr@[j]).len == 0,
            decreases n - i, if stop { 0int } else { 1int },
        {
            if self.arr[i].len == 0 {
                if empty_len == 0 {
                    empty_len = 1;
                    empty_start = i;
                } else {
                    empty_len = empty_len + 1;
                }
                i = i + 1;
            } else if empty_len > 0 {
                if empty_len > 1 {
                    stop = true;
                } else {
                    empty_len = 0;
                    i = i + 1;
                }
            } else {
                i = i + 1;
            }
        }
        if empty_len > 1 {
            let ghost a0 = self.arr@;
            let es = empty_start;
            let mut z = self.arr.remove(es);
            let mut c: usize = 1;
            proof {
                assert(self.arr@ =~= a0.take(es as int) + a0.skip(es + 1));
            }
            while c < empty_len
                invariant
                    1 <= c <= empty_len,
                    es + empty_len <= a0.len(),
                    self.arr@ == a0.take(es as int) + a0.skip(es + c),
                    z.len == 0,
                    a0 == old(self).arr@,
                    self.len == old(self).len,
                decreases empty_len - c,
            {
                let r = self.arr.remove(es);
                append_anns(&mut z.annotations, &r.annotations);
                proof {
                    assert(self.arr@ =~= a0.take(es as int) + a0.skip(es + c + 1));
                }
                c = c + 1;
            }
            self.arr.insert(es, z);
            proof {
                let run = a0.subrange(es as int, es + empty_len);
                assert(a0 =~= a0.take(es as int) + run + a0.skip(es + empty_len));
                assert forall|j: int| 0 <= j < run.len() implies (#[trigger] run[j]).len == 0 by {
                    assert(run[j] == a0[es + j]);
                }
                lemma_units_empty(run);
                lemma_units_concat(a0.take(es as int) + run, a0.skip(es + empty_len));
                lemma_units_concat(a0.take(es as int), run);
                assert(self.arr@ =~= a0.take(es as int) + seq![z] + a0.skip(es + empty_len));
                lemma_units_concat(a0.take(es as int) + seq![z], a0.skip(es + empty_len));
                lemma_units_concat(a0.take(es as int), seq![z]);
                lemma_units_single(z);
                assert(span_units(z) =~= Seq::<Set<OpID>>::empty());
                assert(units_of(self.arr@) =~= units_of(a0));
            }
        }
    }

    /// Deletes the units `pos..pos + len`.
    pub fn delete(&mut self, pos: usize, len: usize)
        requires
            old(self).wf(),
            pos + len <= old(self).units().len(),
        ensures
            final(self).wf(),
            final(self).units() == old(self).units().take(pos as int) + old(self).units().skip(pos + len),
    {
        let ghost u0 = self.units();
        let p = self.find_pos(pos);
        let mut index = p.index;
        let mut offset = p.offset;
        let start_index = index;
        let mut left_len = len;
        let mut to_empty = false;
        proof {
            assert(u0 =~= u0.take(pos as int) + u0.skip(pos as int));
        }
        while left_len > 0
            invariant
                u0.len() == old(self).len,
                pos + len <= u0.len(),
                left_len <= len,
                units_of(self.arr@) == u0.take(pos as int) + u0.skip(pos + len - left_len),
                left_len > 0 ==> index < self.arr@.len() && offset <= self.arr@[index as int].len
                    && units_of(self.arr@.take(index as int)).len() + offset == pos,
                self.arr@.len() == old(self).arr@.len(),
                self.len == old(self).len,
            decreases left_len, self.arr@.len() - index,
        {
            let ghost a = self.arr@;
            let ghost d = len - left_len;
            let l = self.arr[index].len;
            if l >= left_len + offset {
                set_len(&mut self.arr, index, l - left_len);
                proof {
                    lemma_cut(a, index as int, self.arr@[index as int], offset as int, left_len as int);
                    lemma_drop_more(u0, pos as int, d as int, left_len as int);
                }
                if l - left_len == 0 {
                    to_empty = true;
                }
                left_len = 0;
            } else {
                set_len(&mut self.arr, index, offset);
                proof {
                    lemma_cut(a, index as int, self.arr@[index as int], offset as int, (l - offset) as int);
                    lemma_drop_more(u0, pos as int, d as int, (l - offset) as int);
                    assert(units_of(self.arr@.take(index as int + 1)) == units_of(self.arr@.take(index as int))
                        + span_units(self.arr@[index as int])) by {
                        assert(self.arr@.take(index as int + 1).drop_last() =~= self.arr@.take(index as int));
                    }
                    lemma_units_prefix(self.arr@, index as int + 1);
                    assert(self.arr@.take(index as int) =~= a.take(index as int));
                }
                if offset == 0 {
                    to_empty = true;
                }
                left_len = left_len - (l - offset);
                offset = 0;
                assert(index < self.arr.len());
                index = index + 1;
                proof {
                    if left_len > 0 {
                        assert(index < self.arr@.len()) by {
                            if index >= self.arr@.len() {
                                assert(self.arr@.take(index as int) =~= self.arr@);
                            }
                        }
                    }
                }
            }
        }
        self.len = self.len - len;
        if to_empty {
            let m = if len > usize::MAX - 3 {
                usize::MAX
            } else {
                len + 3
            };
            self.try_merge_empty_spans(start_index, Some(m));
        }
    }
}

impl DumbRangeMap {
    /// Inserts `len` units at unit `pos`. Inside a span (or at the start of
    /// the first) the span grows; between spans the new units take the
    /// annotations the spans around the place share, and `f` says, for each
    /// other annotation there, whether it lies before the insertion, after
    /// it, or includes it; a span of length 0 at the place is split to keep
    /// those that lie after the insertion after it.
    #[verifier::rlimit(100)]
    #[verifier::spinoff_prover]
    pub fn insert<F: Fn(&Annotation) -> AnnPosRelativeToInsert>(&mut self, pos: usize, len: usize, f: F)
        requires
            old(self).wf(),
            pos <= old(self).units().len(),
            old(self).units().len() + len <= usize::MAX,
            forall|a: &Annotation| #[trigger] f.requires((a,)),
        ensures
            final(self).wf(),
            exists|s: Set<OpID>| final(self).units() == #[trigger] with_units(old(self).units(), pos as int, len as nat, s),
    {
        let ghost u0 = self.units();
        let p = self.find_pos(pos);
        let index = p.index;
        let offset = p.offset;
        self.len = self.len + len;
        if self.arr.len() == 0 {
            self.arr.push(Span::new(len));
            proof {
                assert(self.arr@ =~= seq![self.arr@[0]]);
                lemma_units_single(self.arr@[0]);
                let e = Set::<OpID>::empty();
                assert(ann_ids(self.arr@[0].annotations@) =~= e);
                assert(units_of(self.arr@) =~= with_units(u0, pos as int, len as nat, e));
            }
            return;
        }
        if offset != 0 || index == 0 {
            let ghost a = self.arr@;
            let l = self.arr[index].len;
            proof {
                lemma_units_split(a, index as int);
            }
            set_len(&mut self.arr, index, l + len);
            proof {
                lemma_grow(a, index as int, self.arr@[index as int], offset as int, len as int);
                let st = ann_ids(a[index as int].annotations@);
                assert(units_of(self.arr@) == with_units(u0, pos as int, len as nat, st));
            }
            return;
        }
        let mut last: Option<usize> = None;
        let mut middle: Option<usize> = None;
        let next: usize = index;
        if self.arr[index - 1].len == 0 {
            middle = Some(index - 1);
            if index >= 2 {
                last = Some(index - 2);
            }
        } else {
            last = Some(index - 1);
        }
        let mut shared = clone_anns(&self.arr[next].annotations);
        match last {
            Some(l) => retain_shared(&mut shared, &self.arr[l].annotations),
            None => {},
        }
        match middle {
            Some(m) => retain_shared(&mut shared, &self.arr[m].annotations),
            None => {},
        }
        let mut new_insert = clone_anns(&shared);
        let mut next_empty = clone_anns(&shared);
        let mut middle_anns: Vec<Arc<Annotation>> = Vec::new();
        let mut use_next = false;
        match middle {
            Some(m) => {
                let anns = clone_anns(&self.arr[m].annotations);
                let mut j: usize = 0;
                while j < anns.len()
                    invariant
                        forall|a: &Annotation| #[trigger] f.requires((a,)),
                    decreases anns@.len() - j,
                {
                    let ann = &anns[j];
                    if contains_id(&shared, ann.id) {
                        insert_ann(&mut middle_anns, arc_ann_clone(ann));
                    } else {
                        let r: &Annotation = ann;
                        match f(r) {
                            AnnPosRelativeToInsert::Before => {
                                insert_ann(&mut middle_anns, arc_ann_clone(ann));
                            },
                            AnnPosRelativeToInsert::After => {
                                use_next = true;
                                insert_ann(&mut next_empty, arc_ann_clone(ann));
                            },
                            AnnPosRelativeToInsert::IncludeInsert => {
                                insert_ann(&mut middle_anns, arc_ann_clone(ann));
                                insert_ann(&mut new_insert, arc_ann_clone(ann));
                                insert_ann(&mut next_empty, arc_ann_clone(ann));
                            },
                        }
                    }
                    j = j + 1;
                }
            },
            None => {},
        }
        let mut sides: Vec<usize> = Vec::new();
        match last {
            Some(l) => sides.push(l),
            None => {},
        }
        sides.push(next);
        let mut k: usize = 0;
        while k < sides.len()
            invariant
                forall|a: &Annotation| #[trigger] f.requires((a,)),
                forall|x: int| 0 <= x < sides@.len() ==> sides@[x] < self.arr@.len(),
            decreases sides@.len() - k,
        {
            let anns = clone_anns(&self.arr[sides[k]].annotations);
            let mut j: usize = 0;
            while j < anns.len()
                invariant
                    forall|a: &Annotation| #[trigger] f.requires((a,)),
                decreases anns@.len() - j,
            {
                let ann = &anns[j];
                if !contains_id(&shared, ann.id) {
                    let r: &Annotation = ann;
                    match f(r) {
                        AnnPosRelativeToInsert::IncludeInsert => {
                            insert_ann(&mut middle_anns, arc_ann_clone(ann));
                            insert_ann(&mut new_insert, arc_ann_clone(ann));
                            if use_next {
                                insert_ann(&mut next_empty, arc_ann_clone(ann));
                            }
                        },
                        _ => {},
                    }
                }
                j = j + 1;
            }
            k = k + 1;
        }
        let ghost a0 = self.arr@;
        match middle {
            Some(m) => {
                set_anns(&mut self.arr, m, middle_anns);
            },
            None => {},
        }
        let ghost a1 = self.arr@;
        proof {
            lemma_units_prefix(a0, index as int);
            assert(units_of(a1.take(index as int)) == units_of(a0.take(index as int))
                && a1.skip(index as int) == a0.skip(index as int)) by {
                match middle {
                    Some(m) => {
                        assert(a0[m as int].len == 0);
                        lemma_units_update(a0.take(index as int), m as int, a1[m as int]);
                        assert(a1.take(index as int) =~= a0.take(index as int).update(m as int, a1[m as int]));
                        lemma_units_split(a0.take(index as int), m as int);
                        assert(span_units(a1[m as int]) =~= span_units(a0[m as int]));
                        assert(a1.skip(index as int) =~= a0.skip(index as int));
                    },
                    None => {
                        assert(a1 == a0);
                    },
                }
            }
        }
        let new_span = Span { annotations: new_insert, len };
        let ghost ns = new_span;
        self.arr.insert(index, new_span);
        proof {
            lemma_units_insert(a1, index as int, ns);
            assert(a1.take(index as int) == a0.take(index as int) || units_of(a1.take(index as int))
                == units_of(a0.take(index as int)));
        }
        if use_next {
            let ghost a2 = self.arr@;
            let z = Span { annotations: next_empty, len: 0 };
            let ghost zs = z;
            self.arr.insert(index + 1, z);
            proof {
                lemma_units_insert(a2, index as int + 1, zs);
                lemma_units_prefix(a2, index as int + 1);
                assert(span_units(zs) =~= Seq::<Set<OpID>>::empty());
            }
        }
        proof {
            let st = ann_ids(ns.annotations@);
            assert(span_units(ns) =~= Seq::new(len as nat, |i: int| st));
            assert(u0.take(pos as int) =~= units_of(a0.take(index as int)));
            assert(u0.skip(pos as int) =~= units_of(a0.skip(index as int)));
            assert(units_of(self.arr@) == with_units(u0, pos as int, len as nat, st));
        }
        let start = if index > 0 {
            index - 1
        } else {
            index
        };
        self.try_merge_empty_spans(start, None);
    }
}

impl DumbRangeMap {
    /// Cuts span `i` at offset `o`.
    fn split_at(&mut self, i: usize, o: usize)
        requires
            old(self).wf(),
            i < old(self).arr@.len(),
            0 < o < old(self).arr@[i as int].len,
        ensures
            final(self).wf(),
            final(self).len == old(self).len,
            final(self).units() == old(self).units(),
            final(self).arr@.len() == old(self).arr@.len() + 1,
            final(self).arr@.take(i as int) == old(self).arr@.take(i as int),
            units_of(final(self).arr@.take(i as int + 1)).len() == units_of(old(self).arr@.take(i as int)).len() + o,
    {
        let ghost a = self.arr@;
        let l = self.arr[i].len;
        let right = Span { annotations: clone_anns(&self.arr[i].annotations), len: l - o };
        let ghost r = right;
        set_len(&mut self.arr, i, o);
        let ghost lft = self.arr@[i as int];
        assert(i < self.arr.len());
        self.arr.insert(i + 1, right);
        proof {
            assert(self.arr@ =~= a.update(i as int, lft).insert(i + 1, r));
            lemma_split_keeps(a, i as int, lft, r);
            assert(self.arr@.take(i as int) =~= a.take(i as int));
            assert(self.arr@.take(i as int + 1).drop_last() =~= a.take(i as int));
            assert(self.arr@.take(i as int + 1).last() == lft);
        }
    }

    /// A place `pos` where a span starts (cutting a span there if needed):
    /// the index of the first span at or after it.
    fn boundary_at(&mut self, pos: usize) -> (k: usize)
        requires
            old(self).wf(),
            pos <= old(self).units().len(),
            old(self).arr@.len() > 0,
        ensures
            final(self).wf(),
            final(self).len == old(self).len,
            final(self).units() == old(self).units(),
            final(self).arr@.len() > 0,
            k <= final(self).arr@.len(),
            final(self).arr@.len() >= old(self).arr@.len(),
            units_of(final(self).arr@.take(k as int)).len() == pos,
            forall|x: int|
                0 <= x <= old(self).arr@.len() && units_of(old(self).arr@.take(x)).len() <= pos
                    ==> #[trigger] final(self).arr@.take(x) == old(self).arr@.take(x),
    {
        let p = self.find_pos(pos);
        let l = self.arr[p.index].len;
        let n = self.arr.len();
        assert(p.index < n);
        if p.offset == 0 {
            p.index
        } else if p.offset == l {
            proof {
                assert(self.arr@.take(p.index + 1).drop_last() =~= self.arr@.take(p.index as int));
            }
            p.index + 1
        } else {
            let ghost a = self.arr@;
            self.split_at(p.index, p.offset);
            proof {
                assert forall|x: int|
                    0 <= x <= a.len() && units_of(a.take(x)).len() <= pos implies #[trigger] self.arr@.take(x)
                        == a.take(x) by {
                    if x > p.index {
                        lemma_prefix_mono(a, p.index + 1, x);
                        assert(a.take(p.index + 1).drop_last() =~= a.take(p.index as int));
                    } else {
                        assert(self.arr@.take(x) =~= self.arr@.take(p.index as int).take(x));
                        assert(a.take(x) =~= a.take(p.index as int).take(x));
                    }
                }
            }
            p.index + 1
        }
    }

    /// Adds the annotation `ann` to the spans `lo..hi`.
    fn mark_spans(&mut self, lo: usize, hi: usize, ann: &Arc<Annotation>)
        requires
            old(self).wf(),
            lo <= hi <= old(self).arr@.len(),
        ensures
            final(self).wf(),
            final(self).len == old(self).len,
            final(self).units() == marked(
                old(self).units(),
                units_of(old(self).arr@.take(lo as int)).len() as int,
                units_of(old(self).arr@.take(hi as int)).len() as int,
                ann.id,
            ),
    {
        let ghost a = self.arr@;
        let mut j = lo;
        while j < hi
            invariant
                lo <= j <= hi <= a.len(),
                self.arr@.len() == a.len(),
                self.len == old(self).len,
                a == old(self).arr@,
                forall|x: int| 0 <= x < a.len() ==> (#[trigger] self.arr@[x]).len == a[x].len,
                forall|x: int|
                    0 <= x < a.len() ==> ann_ids((#[trigger] self.arr@[x]).annotations@) == if lo <= x < j {
                        ann_ids(a[x].annotations@).insert(ann.id)
                    } else {
                        ann_ids(a[x].annotations@)
                    },
            decreases hi - j,
        {
            let mut anns = clone_anns(&self.arr[j].annotations);
            insert_ann(&mut anns, arc_ann_clone(ann));
            set_anns(&mut self.arr, j, anns);
            j = j + 1;
        }
        proof {
            lemma_units_mark(a, self.arr@, lo as int, hi as int, ann.id);
        }
    }

    /// Adds `annotation` to the units `pos..pos + len`; an empty range keeps
    /// it in a span of length 0 at `pos`.
    pub fn annotate(&mut self, pos: usize, len: usize, annotation: Annotation)
        requires
            old(self).wf(),
            pos + len <= old(self).units().len(),
            old(self).spans().len() > 0,
        ensures
            final(self).wf(),
            final(self).units() == marked(old(self).units(), pos as int, pos + len, annotation.id),
    {
        let ghost u0 = self.units();
        let ann = Arc::new(annotation);
        if len == 0 {
            self.annotate_empty(pos, ann);
            proof {
                assert(marked(u0, pos as int, pos as int, annotation.id) =~= u0);
            }
            return;
        }
        let lo = self.boundary_at(pos);
        let ghost a1 = self.arr@;
        let hi = self.boundary_at(pos + len);
        proof {
            let a = self.arr@;
            assert(a.take(lo as int) == a1.take(lo as int));
            if hi <= lo {
                lemma_prefix_mono(a, hi as int, lo as int);
            }
        }
        self.mark_spans(lo, hi, &ann);
    }

    /// Keeps `ann` in a span of length 0 at `pos`.
    fn annotate_empty(&mut self, pos: usize, ann: Arc<Annotation>)
        requires
            old(self).wf(),
            pos <= old(self).units().len(),
            old(self).arr@.len() > 0,
        ensures
            final(self).wf(),
            final(self).units() == old(self).units(),
    {
        let p = self.find_pos(pos);
        let i = p.index;
        if contains_id(&self.arr[i].annotations, ann.id) {
            return;
        }
        let l = self.arr[i].len;
        if l == 0 {
            let ghost a = self.arr@;
            let mut anns = clone_anns(&self.arr[i].annotations);
            insert_ann(&mut anns, ann);
            set_anns(&mut self.arr, i, anns);
            proof {
                lemma_units_update(a, i as int, self.arr@[i as int]);
                lemma_units_split(a, i as int);
                assert(span_units(self.arr@[i as int]) =~= span_units(a[i as int]));
            }
            return;
        }
        let mut anns = clone_anns(&self.arr[i].annotations);
        insert_ann(&mut anns, ann);
        let z = Span { annotations: anns, len: 0 };
        let n = self.arr.len();
        assert(i < n);
        let at = if p.offset == 0 {
            i
        } else if p.offset == l {
            i + 1
        } else {
            self.split_at(i, p.offset);
            i + 1
        };
        let ghost a = self.arr@;
        let ghost zs = z;
        self.arr.insert(at, z);
        proof {
            lemma_units_insert(a, at as int, zs);
            lemma_units_prefix(a, at as int);
            assert(span_units(zs) =~= Seq::<Set<OpID>>::empty());
        }
        self.try_merge_empty_spans(at, Some(5));
    }

    /// Removes the annotation with id `id` from every span.
    pub fn delete_annotation(&mut self, id: OpID)
        requires
            old(self).wf(),
        ensures
            final(self).wf(),
            final(self).units() == Seq::new(old(self).units().len(), |k: int| old(self).units()[k].remove(id)),
    {
        let ghost a = self.arr@;
        let n = self.arr.len();
        let mut j: usize = 0;
        while j < n
            invariant
                n == a.len(),
                j <= n,
                self.arr@.len() == a.len(),
                self.len == old(self).len,
                a == old(self).arr@,
                forall|x: int| 0 <= x < a.len() ==> (#[trigger] self.arr@[x]).len == a[x].len,
                forall|x: int|
                    0 <= x < a.len() ==> ann_ids((#[trigger] self.arr@[x]).annotations@) == if x < j {
                        ann_ids(a[x].annotations@).remove(id)
                    } else {
                        ann_ids(a[x].annotations@)
                    },
            decreases n - j,
        {
            let mut anns = clone_anns(&self.arr[j].annotations);
            remove_id(&mut anns, id);
            set_anns(&mut self.arr, j, anns);
            j = j + 1;
        }
        proof {
            lemma_units_unmark(a, self.arr@, id);
        }
    }
}

impl DumbRangeMap {
    /// The spans of the units `pos..pos + len` (none when `len` is 0), with
    /// neighbours holding the same annotations merged.
    pub fn get_annotations(&self, pos: usize, len: usize) -> (r: Vec<Span>)
        requires
            self.wf(),
            pos + len <= self.units().len(),
        ensures
            units_of(r@) == self.units().subrange(pos as int, pos + len),
    {
        let ghost u = self.units();
        let mut out: Vec<Span> = Vec::new();
        if len == 0 {
            proof {
                assert(u.subrange(pos as int, pos as int) =~= Seq::<Set<OpID>>::empty());
            }
            return out;
        }
        let end = pos + len;
        let n = self.arr.len();
        let mut start: usize = 0;
        let mut j: usize = 0;
        proof {
            assert(self.arr@.take(0) =~= Seq::<Span>::empty());
        }
        while j < n
            invariant
                n == self.arr@.len(),
                j <= n,
                start == units_of(self.arr@.take(j as int)).len(),
                u == units_of(self.arr@),
                u.len() == self.len,
                pos < end <= u.len(),
                end == pos + len,
                units_of(out@) == u.subrange(pos as int, clamp(start as int, pos as int, end as int)),
            decreases n - j,
        {
            proof {
                lemma_units_split(self.arr@, j as int);
                lemma_units_prefix(self.arr@, j as int + 1);
                assert(self.arr@.take(j as int + 1).drop_last() =~= self.arr@.take(j as int));
            }
            let l = self.arr[j].len;
            let stop = start + l;
            let lo = if start > pos {
                start
            } else {
                pos
            };
            let hi = if stop < end {
                stop
            } else {
                end
            };
            if lo < hi {
                let mut sp = self.arr[j].clone_span();
                sp.len = hi - lo;
                let ghost spg = sp;
                proof {
                    let uo = u.subrange(pos as int, lo as int);
                    assert(units_of(out@) == uo);
                }
                push_span(&mut out, sp);
                proof {
                    let pre = units_of(self.arr@.take(j as int));
                    assert(u.subrange(lo as int, hi as int) =~= span_units(spg)) by {
                        assert forall|k: int| 0 <= k < hi - lo implies u.subrange(lo as int, hi as int)[k]
                            == span_units(self.arr@[j as int])[lo - start + k] by {
                            assert(u[lo + k] == (pre + span_units(self.arr@[j as int]) + units_of(
                                self.arr@.skip(j + 1),
                            ))[lo + k]);
                        }
                    }
                    assert(u.subrange(pos as int, hi as int) =~= u.subrange(pos as int, lo as int) + u.subrange(
                        lo as int,
                        hi as int,
                    ));
                }
            }
            if l == 0 && pos < start && start <= end {
                let sp = self.arr[j].clone_span();
                let ghost spg = sp;
                push_span(&mut out, sp);
                proof {
                    assert(span_units(spg) =~= Seq::<Set<OpID>>::empty());
                    assert(units_of(out@) =~= u.subrange(pos as int, clamp(start as int, pos as int, end as int)));
                }
            }
            start = stop;
            j = j + 1;
        }
        proof {
            assert(self.arr@.take(n as int) =~= self.arr@);
        }
        out
    }
}

/// The annotation with id `id` in the list.
fn get_ann(v: &Vec<Arc<Annotation>>, id: OpID) -> (r: Option<Arc<Annotation>>)
    ensures
        r matches Some(a) ==> a.id == id,
        r is None <==> !ann_ids(v@).contains(id),
{
    let mut i: usize = 0;
    while i < v.len()
        invariant
            0 <= i <= v@.len(),
            forall|j: int| 0 <= j < i ==> (#[trigger] v@[j]).id != id,
        decreases v@.len() - i,
    {
        if v[i].id == id {
            proof {
                assert(v@[i as int].id == id);
            }
            return Some(arc_ann_clone(&v[i]));
        }
        i = i + 1;
    }
    None
}

/// The size of a shift.
fn abs_shift(shift: isize) -> (k: usize)
    ensures
        k == if shift >= 0 { shift as int } else { -shift },
{
    if shift >= 0 {
        shift as usize
    } else {
        (-(shift + 1)) as usize + 1
    }
}

/// A copy of the annotation (its value and name copied too).
fn copy_annotation(a: &Annotation) -> (r: Annotation)
    ensures
        r.id == a.id,
{
    Annotation {
        id: a.id,
        range_lamport: a.range_lamport,
        range: a.range,
        behavior: a.behavior,
        type_: a.type_.clone(),
        value: crate::json_clone(&a.value),
    }
}

impl DumbRangeMap {
    /// The first span holding annotation `id`.
    fn find_first_with(&self, id: OpID) -> (r: Option<usize>)
        ensures
            r matches Some(i) ==> i < self.arr@.len() && span_has(self.arr@, i as int, id) && forall|j: int|
                0 <= j < i ==> !#[trigger] span_has(self.arr@, j, id),
            r is None ==> forall|j: int| 0 <= j < self.arr@.len() ==> !#[trigger] span_has(self.arr@, j, id),
    {
        let mut i: usize = 0;
        while i < self.arr.len()
            invariant
                i <= self.arr@.len(),
                forall|j: int| 0 <= j < i ==> !#[trigger] span_has(self.arr@, j, id),
            decreases self.arr@.len() - i,
        {
            if contains_id(&self.arr[i].annotations, id) {
                return Some(i);
            }
            i = i + 1;
        }
        None
    }

    /// The last span holding annotation `id`.
    fn find_last_with(&self, id: OpID) -> (r: Option<usize>)
        ensures
            r matches Some(i) ==> i < self.arr@.len() && span_has(self.arr@, i as int, id) && forall|j: int|
                i < j < self.arr@.len() ==> !#[trigger] span_has(self.arr@, j, id),
            r is None ==> forall|j: int| 0 <= j < self.arr@.len() ==> !#[trigger] span_has(self.arr@, j, id),
    {
        let mut i: usize = self.arr.len();
        while i > 0
            invariant
                i <= self.arr@.len(),
                forall|j: int| i <= j < self.arr@.len() ==> !#[trigger] span_has(self.arr@, j, id),
            decreases i,
        {
            if contains_id(&self.arr[i - 1].annotations, id) {
                return Some(i - 1);
            }
            i = i - 1;
        }
        None
    }

    /// Takes annotation `id` from the spans `lo..hi`.
    fn unmark_spans(&mut self, lo: usize, hi: usize, id: OpID)
        requires
            old(self).wf(),
            lo <= hi <= old(self).arr@.len(),
        ensures
            final(self).wf(),
            final(self).len == old(self).len,
            final(self).arr@.len() == old(self).arr@.len(),
            forall|x: int| 0 <= x < old(self).arr@.len() ==> (#[trigger] final(self).arr@[x]).len == old(self).arr@[x].len,
            final(self).units() == unmarked(
                old(self).units(),
                units_of(old(self).arr@.take(lo as int)).len() as int,
                units_of(old(self).arr@.take(hi as int)).len() as int,
                id,
            ),
    {
        let ghost a = self.arr@;
        let mut j = lo;
        while j < hi
            invariant
                lo <= j <= hi <= a.len(),
                self.arr@.len() == a.len(),
                self.len == old(self).len,
                a == old(self).arr@,
                forall|x: int| 0 <= x < a.len() ==> (#[trigger] self.arr@[x]).len == a[x].len,
                forall|x: int|
                    0 <= x < a.len() ==> ann_ids((#[trigger] self.arr@[x]).annotations@) == if lo <= x < j {
                        ann_ids(a[x].annotations@).remove(id)
                    } else {
                        ann_ids(a[x].annotations@)
                    },
            decreases hi - j,
        {
            let mut anns = clone_anns(&self.arr[j].annotations);
            remove_id(&mut anns, id);
            set_anns(&mut self.arr, j, anns);
            j = j + 1;
        }
        proof {
            lemma_units_unmark_range(a, self.arr@, lo as int, hi as int, id);
            lemma_units_unmark_range(a, self.arr@, lo as int, hi as int, id);
        }
    }

    /// Keeps annotation `ann` in a span of length 0 at span `at`, unless the
    /// span there already holds it.
    fn keep_at_edge(&mut self, at: usize, ann: &Arc<Annotation>)
        requires
            old(self).wf(),
            at <= old(self).arr@.len(),
        ensures
            final(self).wf(),
            final(self).units() == old(self).units(),
            final(self).len == old(self).len,
    {
        if at < self.arr.len() && contains_id(&self.arr[at].annotations, ann.id) {
            return;
        }
        let ghost a = self.arr@;
        if at < self.arr.len() && self.arr[at].len == 0 {
            let mut anns = clone_anns(&self.arr[at].annotations);
            insert_ann(&mut anns, arc_ann_clone(ann));
            set_anns(&mut self.arr, at, anns);
            proof {
                lemma_units_update(a, at as int, self.arr@[at as int]);
                lemma_units_split(a, at as int);
                assert(span_units(self.arr@[at as int]) =~= span_units(a[at as int]));
            }
            return;
        }
        let mut anns: Vec<Arc<Annotation>> = Vec::new();
        anns.push(arc_ann_clone(ann));
        let z = Span { annotations: anns, len: 0 };
        let ghost zs = z;
        self.arr.insert(at, z);
        proof {
            lemma_units_insert(a, at as int, zs);
            lemma_units_prefix(a, at as int);
            assert(span_units(zs) =~= Seq::<Set<OpID>>::empty());
        }
    }

    /// Puts `new_ann` in place of the annotation with its id in every span.
    fn replace_ann(&mut self, new_ann: &Arc<Annotation>)
        requires
            old(self).wf(),
        ensures
            final(self).wf(),
            final(self).units() == old(self).units(),
            final(self).len == old(self).len,
    {
        let ghost a = self.arr@;
        let n = self.arr.len();
        let mut j: usize = 0;
        while j < n
            invariant
                n == a.len(),
                j <= n,
                self.arr@.len() == a.len(),
                self.len == old(self).len,
                a == old(self).arr@,
                forall|x: int| 0 <= x < a.len() ==> (#[trigger] self.arr@[x]).len == a[x].len,
                forall|x: int| 0 <= x < a.len() ==> ann_ids((#[trigger] self.arr@[x]).annotations@) == ann_ids(a[x].annotations@),
            decreases n - j,
        {
            if contains_id(&self.arr[j].annotations, new_ann.id) {
                let mut anns = clone_anns(&self.arr[j].annotations);
                remove_id(&mut anns, new_ann.id);
                insert_ann(&mut anns, arc_ann_clone(new_ann));
                let ghost s0 = ann_ids(a[j as int].annotations@);
                set_anns(&mut self.arr, j, anns);
                proof {
                    assert(ann_ids(self.arr@[j as int].annotations@) =~= s0);
                }
            }
            j = j + 1;
        }
        proof {
            lemma_units_unmark_range(a, self.arr@, 0, 0, new_ann.id);
            assert(unmarked(units_of(a), units_of(a.take(0)).len() as int, units_of(a.take(0)).len() as int, new_ann.id)
                =~= units_of(a));
        }
    }

    /// Moves the end of annotation `id`, which ends at unit `e` (after span
    /// `last`, its last span), by `shift` units.
    fn move_end(&mut self, id: OpID, shift: isize, ann: &Arc<Annotation>, e: usize)
        requires
            old(self).wf(),
            old(self).arr@.len() > 0,
            0 <= e + shift <= old(self).units().len(),
            0 <= e <= old(self).units().len(),
            ann.id == id,
        ensures
            final(self).wf(),
            final(self).units() == end_moved(old(self).units(), e as int, shift as int, id),
    {
        let ghost u0 = self.units();
        if shift > 0 {
            let ee = self.boundary_at(e);
            let ghost a1 = self.arr@;
            let k = abs_shift(shift);
            let hi = self.boundary_at(e + k);
            proof {
                assert(self.arr@.take(ee as int) == a1.take(ee as int));
                if hi < ee {
                    lemma_prefix_mono(self.arr@, hi as int, ee as int);
                }
            }
            self.mark_spans(ee, hi, ann);
        } else if shift < 0 {
            let k = abs_shift(shift);
            let lo = self.boundary_at(e - k);
            let ghost a1 = self.arr@;
            let hi = self.boundary_at(e);
            proof {
                assert(self.arr@.take(lo as int) == a1.take(lo as int));
                if hi < lo {
                    lemma_prefix_mono(self.arr@, hi as int, lo as int);
                }
            }
            self.unmark_spans(lo, hi, id);
            if lo > 0 {
                self.keep_at_edge(lo, ann);
            }
        }
    }

    /// Moves the start of annotation `id`, which starts at unit `b`, by
    /// `shift` units.
    fn move_start(&mut self, id: OpID, shift: isize, ann: &Arc<Annotation>, b: usize)
        requires
            old(self).wf(),
            old(self).arr@.len() > 0,
            0 <= b + shift <= old(self).units().len(),
            0 <= b <= old(self).units().len(),
            ann.id == id,
        ensures
            final(self).wf(),
            final(self).units() == start_moved(old(self).units(), b as int, shift as int, id),
    {
        if shift > 0 {
            let lo = self.boundary_at(b);
            let ghost a1 = self.arr@;
            let k = abs_shift(shift);
            let hi = self.boundary_at(b + k);
            proof {
                assert(self.arr@.take(lo as int) == a1.take(lo as int));
                if hi < lo {
                    lemma_prefix_mono(self.arr@, hi as int, lo as int);
                }
            }
            self.unmark_spans(lo, hi, id);
            self.keep_at_edge(hi, ann);
        } else if shift < 0 {
            let k = abs_shift(shift);
            let lo = self.boundary_at(b - k);
            let ghost a1 = self.arr@;
            let hi = self.boundary_at(b);
            proof {
                assert(self.arr@.take(lo as int) == a1.take(lo as int));
                if hi < lo {
                    lemma_prefix_mono(self.arr@, hi as int, lo as int);
                }
            }
            self.mark_spans(lo, hi, ann);
        }
    }
}

impl DumbRangeMap {
    /// Whether some span holds annotation `id`.
    pub open spec fn has_ann(&self, id: OpID) -> bool {
        exists|i: int| 0 <= i < self.spans().len() && #[trigger] span_has(self.spans(), i, id)
    }

    /// Moves the end of annotation `id` by `end.0` units and then its start
    /// by `start.0` units (a positive shift moves towards the end), naming
    /// the new anchor characters in the annotation; units whose annotation
    /// is taken at an edge keep it in a span of length 0 there. A start
    /// shift that would leave the map after the end shift is skipped.
    #[verifier::rlimit(100)]
    #[verifier::spinoff_prover]
    pub fn adjust_annotation(
        &mut self,
        id: OpID,
        start: Option<(isize, Option<OpID>)>,
        end: Option<(isize, Option<OpID>)>,
    )
        requires
            old(self).wf(),
            old(self).has_ann(id),
            end matches Some(e) ==> 0 <= ann_end(old(self).spans(), id) + e.0 <= old(self).units().len(),
            end is None && start is Some ==> 0 <= ann_start(old(self).spans(), id) + (start->0).0 <= old(self).units().len(),
        ensures
            final(self).wf(),
            final(self).units().len() == old(self).units().len(),
            start is None ==> final(self).units() == match end {
                Some(e) => end_moved(old(self).units(), ann_end(old(self).spans(), id), e.0 as int, id),
                None => old(self).units(),
            },
            end is None && start is Some ==> final(self).units() == start_moved(
                old(self).units(),
                ann_start(old(self).spans(), id),
                (start->0).0 as int,
                id,
            ),
    {
        let ghost u0 = self.units();
        let ghost a0 = self.arr@;
        let f0 = self.find_first_with(id);
        let first = match f0 {
            Some(i) => i,
            None => {
                return;
            },
        };
        let ann = match get_ann(&self.arr[first].annotations, id) {
            Some(a) => a,
            None => {
                return;
            },
        };
        let mut new_ann = copy_annotation(&ann);
        match end {
            Some((shift, new_end_id)) => {
                new_ann.range.end.id = new_end_id;
                let last = match self.find_last_with(id) {
                    Some(l) => l,
                    None => {
                        return;
                    },
                };
                let nn = self.arr.len();
                assert(last < nn);
                let e = self.units_before(last + 1);
                proof {
                    assert(last as int == last_span_with(a0, id));
                    lemma_prefix_mono(self.arr@, last as int + 1, self.arr@.len() as int);
                    assert(self.arr@.take(self.arr@.len() as int) =~= self.arr@);
                    assert(e == ann_end(a0, id));
                }
                self.move_end(id, shift, &ann, e);
            },
            None => {},
        }
        match start {
            Some((shift, new_start_id)) => {
                new_ann.range.start.id = new_start_id;
                let ghost u1 = self.units();
                let first = match self.find_first_with(id) {
                    Some(i) => i,
                    None => {
                        return;
                    },
                };
                let b = self.units_before(first);
                proof {
                    lemma_prefix_mono(self.arr@, first as int, self.arr@.len() as int);
                    assert(self.arr@.take(self.arr@.len() as int) =~= self.arr@);
                    if end is None {
                        assert(first as int == first_span_with(a0, id));
                    }
                }
                let k = abs_shift(shift);
                let n = self.len;
                let fits = if shift >= 0 {
                    k <= n && b <= n - k
                } else {
                    k <= b
                };
                if fits {
                    self.move_start(id, shift, &ann, b);
                }
            },
            None => {},
        }
        let na = Arc::new(new_ann);
        self.replace_ann(&na);
    }

    /// The number of units in the first `k` spans.
    fn units_before(&self, k: usize) -> (n: usize)
        requires
            self.wf(),
            k <= self.arr@.len(),
        ensures
            n == units_of(self.arr@.take(k as int)).len(),
    {
        let mut n: usize = 0;
        let mut j: usize = 0;
        proof {
            assert(self.arr@.take(0) =~= Seq::<Span>::empty());
        }
        while j < k
            invariant
                j <= k <= self.arr@.len(),
                n == units_of(self.arr@.take(j as int)).len(),
                units_of(self.arr@).len() == self.len,
            decreases k - j,
        {
            proof {
                assert(self.arr@.take(j as int + 1).drop_last() =~= self.arr@.take(j as int));
                lemma_prefix_mono(self.arr@, j as int + 1, self.arr@.len() as int);
                assert(self.arr@.take(self.arr@.len() as int) =~= self.arr@);
            }
            n = n + self.arr[j].len;
            j = j + 1;
        }
        n
    }
}

impl DumbRangeMap {
    /// Inserts `len` units at unit `pos`, every annotation around the place
    /// including them.
    pub fn insert_directly(&mut self, pos: usize, len: usize)
        requires
            old(self).wf(),
            pos <= old(self).units().len(),
            old(self).units().len() + len <= usize::MAX,
        ensures
            final(self).wf(),
            exists|s: Set<OpID>| final(self).units() == #[trigger] with_units(old(self).units(), pos as int, len as nat, s),
    {
        self.insert(pos, len, |_a: &Annotation| -> (r: AnnPosRelativeToInsert) { AnnPosRelativeToInsert::IncludeInsert });
    }

    /// The spans, in order.
    pub fn span_list(&self) -> (r: &Vec<Span>)
        ensures
            r@ == self.spans(),
    {
        &self.arr
    }

    /// Annotation `id` and the units from its first span to the end of the
    /// run of spans holding it that starts there.
    pub fn get_annotation_pos(&self, id: OpID) -> (r: Option<(Arc<Annotation>, (usize, usize))>)
        requires
            self.wf(),
        ensures
            r is Some <==> self.has_ann(id),
            r matches Some(x) ==> x.0.id == id && x.1.0 == ann_start(self.spans(), id) && x.1.0 <= x.1.1
                <= self.units().len(),
    {
        let first = match self.find_first_with(id) {
            Some(i) => i,
            None => {
                return None;
            },
        };
        let ann = match get_ann(&self.arr[first].annotations, id) {
            Some(a) => a,
            None => {
                return None;
            },
        };
        let start = self.units_before(first);
        let n = self.arr.len();
        let mut j = first;
        while j < n && contains_id(&self.arr[j].annotations, id)
            invariant
                first <= j <= n,
                n == self.arr@.len(),
            decreases n - j,
        {
            j = j + 1;
        }
        let end = self.units_before(j);
        proof {
            assert(first as int == first_span_with(self.arr@, id));
            lemma_prefix_mono(self.arr@, first as int, j as int);
            lemma_prefix_mono(self.arr@, j as int, n as int);
            assert(self.arr@.take(n as int) =~= self.arr@);
        }
        Some((ann, (start, end)))
    }
}

} // verus!
