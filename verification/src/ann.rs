//! Annotation anchors attached to text elements, their aggregation in caches,
//! differences between caches, and the set of annotations active at a point.
//!
//! An annotation is known by its index (`AnnIdx`, positive). A difference of
//! two sets of indices holds `+i` for an index that was added and `-i` for one
//! that was removed.
use vstd::prelude::*;

use fxhash::FxHashSet;

use crate::fx::{
    fx_set_clear, fx_set_clone, fx_set_contains, fx_set_extend, fx_set_insert, fx_set_is_empty,
    fx_set_new, fx_set_remove, fx_set_to_vec,
};
use crate::fx::{arc_ann_clone, fx_id_map_get, fx_id_map_insert, fx_id_map_new, AnnIdxMap};
use crate::small_set::{set_wf, SmallSetI32};
use crate::{lamport_less, lamport_lt, AnchorType, Annotation, Behavior, OpID};
use std::sync::Arc;

verus! {

broadcast use vstd::seq_lib::group_seq_properties;

/// Index of a registered annotation; differences use its negation for a
/// removal.
pub type AnnIdx = i32;

/// A finite set of annotation indices, all positive.
pub open spec fn idx_set_wf(s: Set<i32>) -> bool {
    &&& s.finite()
    &&& forall|x: i32| #[trigger] s.contains(x) ==> x > 0
}

/// The difference that turns `b` into `a`: `+x` for each `x` of `a` missing
/// from `b`, `-x` for each `x` of `b` missing from `a`.
pub open spec fn diff_of(a: Set<i32>, b: Set<i32>) -> Set<i32> {
    Set::new(
        |x: i32|
            (x > 0 && a.contains(x) && !b.contains(x)) || (x < 0 && x > i32::MIN && b.contains(
                (-x) as i32,
            ) && !a.contains((-x) as i32)),
    )
}

/// The set `b` after applying the difference `d`.
pub open spec fn apply_diff_spec(b: Set<i32>, d: Set<i32>) -> Set<i32> {
    Set::new(|x: i32| x > 0 && (b.contains(x) || d.contains(x)) && !d.contains((-x) as i32))
}

/// The difference `a` followed by the difference `b`, as one difference: an
/// entry of one cancels the opposite entry of the other.
pub open spec fn merge_diff_spec(a: Set<i32>, b: Set<i32>) -> Set<i32> {
    Set::new(
        |y: i32|
            (a.contains(y) && !b.contains((-y) as i32)) || (b.contains(y) && !a.contains(
                (-y) as i32,
            )),
    )
}

/// Applying the difference from `b` to `a` turns `b` into `a`.
pub proof fn lemma_apply_calc_diff(a: Set<i32>, b: Set<i32>)
    requires
        idx_set_wf(a),
        idx_set_wf(b),
    ensures
        apply_diff_spec(b, diff_of(a, b)) == a,
        set_wf(diff_of(a, b)),
{
    assert(apply_diff_spec(b, diff_of(a, b)) =~= a);
    lemma_diff_wf(a, b);
}

/// Differences compose: the difference from `s` to `a` merged with the
/// difference from `a` to `b` is the difference from `s` to `b`.
pub proof fn lemma_merge_diffs(s: Set<i32>, a: Set<i32>, b: Set<i32>)
    requires
        idx_set_wf(s),
        idx_set_wf(a),
        idx_set_wf(b),
    ensures
        merge_diff_spec(diff_of(a, s), diff_of(b, a)) == diff_of(b, s),
{
    assert forall|y: i32| #[trigger] merge_diff_spec(diff_of(a, s), diff_of(b, a)).contains(y)
        <==> diff_of(b, s).contains(y) by {
        if y < 0 && y > i32::MIN {
            assert((-((-y) as i32)) as i32 == y);
        }
        if y > 0 {
            assert((-((-y) as i32)) as i32 == y);
        }
    }
    assert(merge_diff_spec(diff_of(a, s), diff_of(b, a)) =~= diff_of(b, s));
}

proof fn lemma_diff_wf(a: Set<i32>, b: Set<i32>)
    requires
        idx_set_wf(a),
        idx_set_wf(b),
    ensures
        set_wf(diff_of(a, b)),
{
    let d = diff_of(a, b);
    let pos = a.difference(b);
    let neg = b.difference(a).map(|x: i32| (-x) as i32);
    b.difference(a).lemma_map_finite(|x: i32| (-x) as i32);
    assert(d =~= pos.union(neg)) by {
        assert forall|x: i32| #[trigger] d.contains(x) implies pos.union(neg).contains(x) by {
            if x < 0 {
                assert(b.difference(a).contains((-x) as i32));
                assert((-((-x) as i32)) as i32 == x);
            }
        }
    }
    assert forall|x: i32| #[trigger] d.contains(x) implies !d.contains((-x) as i32) by {
        if x > 0 {
            assert((-((-x) as i32)) as i32 == x);
        }
    }
}

/// The anchors aggregated over a subtree: which annotations start and which
/// end inside it.
pub struct CacheAnchorSet {
    pub start: FxHashSet<AnnIdx>,
    pub end: FxHashSet<AnnIdx>,
}

/// The anchors attached to one text element, by side.
pub struct ElemAnchorSet {
    pub start_before: FxHashSet<AnnIdx>,
    pub end_before: FxHashSet<AnnIdx>,
    pub start_after: FxHashSet<AnnIdx>,
    pub end_after: FxHashSet<AnnIdx>,
}

/// A change of a [`CacheAnchorSet`].
pub struct AnchorSetDiff {
    pub start: SmallSetI32,
    pub end: SmallSetI32,
}

/// The difference `a - b` on one side, as a small set.
fn set_diff(a: &FxHashSet<i32>, b: &FxHashSet<i32>) -> (d: SmallSetI32)
    requires
        idx_set_wf(a@),
        idx_set_wf(b@),
    ensures
        d.wf(),
        d.view() == diff_of(a@, b@),
{
    let mut d = SmallSetI32::new();
    let v = fx_set_to_vec(a);
    let mut i: usize = 0;
    while i < v.len()
        invariant
            idx_set_wf(a@),
            idx_set_wf(b@),
            v@.to_set() == a@,
            0 <= i <= v.len(),
            d.wf(),
            d.view() == Set::new(|x: i32| v@.take(i as int).contains(x) && !b@.contains(x)),
        decreases v.len() - i,
    {
        let x = v[i];
        proof {
            assert(v@.to_set().contains(x));
            assert(v@.take(i as int + 1) =~= v@.take(i as int).push(x));
        }
        if !fx_set_contains(b, x) {
            proof {
                assert(!d.view().contains((-x) as i32)) by {
                    if d.view().contains((-x) as i32) {
                        assert(v@.take(i as int).contains((-x) as i32));
                        assert(v@.contains((-x) as i32));
                        assert(v@.to_set().contains((-x) as i32));
                    }
                }
            }
            d.insert(x);
            proof {
                assert(d.view() =~= Set::new(
                    |y: i32| v@.take(i as int + 1).contains(y) && !b@.contains(y),
                ));
            }
        } else {
            proof {
                assert(d.view() =~= Set::new(
                    |y: i32| v@.take(i as int + 1).contains(y) && !b@.contains(y),
                ));
            }
        }
        i = i + 1;
    }
    proof {
        assert(v@.take(v.len() as int) =~= v@);
    }
    let w = fx_set_to_vec(b);
    let ghost pos = d.view();
    let mut j: usize = 0;
    proof {
        assert forall|x: i32| #[trigger] pos.contains(x) <==> (a@.contains(x) && !b@.contains(x)) by {
            if a@.contains(x) {
                assert(v@.to_set().contains(x));
            }
        }
    }
    while j < w.len()
        invariant
            idx_set_wf(a@),
            idx_set_wf(b@),
            w@.to_set() == b@,
            forall|x: i32| #[trigger] pos.contains(x) <==> (a@.contains(x) && !b@.contains(x)),
            0 <= j <= w.len(),
            d.wf(),
            d.view() == pos.union(
                Set::new(
                    |x: i32|
                        x < 0 && x > i32::MIN && w@.take(j as int).contains((-x) as i32)
                            && !a@.contains((-x) as i32),
                ),
            ),
        decreases w.len() - j,
    {
        let y = w[j];
        proof {
            assert(w@.to_set().contains(y));
            assert(w@.take(j as int + 1) =~= w@.take(j as int).push(y));
        }
        if !fx_set_contains(a, y) {
            proof {
                assert((-((-y) as i32)) as i32 == y);
                assert(!d.view().contains(y));
            }
            d.insert(-y);
            proof {
                assert(d.view() =~= pos.union(
                    Set::new(
                        |x: i32|
                            x < 0 && x > i32::MIN && w@.take(j as int + 1).contains((-x) as i32)
                                && !a@.contains((-x) as i32),
                    ),
                ));
            }
        } else {
            proof {
                assert(d.view() =~= pos.union(
                    Set::new(
                        |x: i32|
                            x < 0 && x > i32::MIN && w@.take(j as int + 1).contains((-x) as i32)
                                && !a@.contains((-x) as i32),
                    ),
                ));
            }
        }
        j = j + 1;
    }
    proof {
        assert(w@.take(w.len() as int) =~= w@);
        assert forall|x: i32| #[trigger] d.view().contains(x) <==> diff_of(a@, b@).contains(x) by {
            if x < 0 && x > i32::MIN && b@.contains((-x) as i32) {
                assert(w@.to_set().contains((-x) as i32));
            }
        }
        assert(d.view() =~= diff_of(a@, b@));
    }
    d
}

/// Applies one side of a difference to a set.
fn apply_set_diff(s: &mut FxHashSet<i32>, d: &SmallSetI32)
    requires
        idx_set_wf(old(s)@),
        d.wf(),
    ensures
        idx_set_wf(final(s)@),
        final(s)@ == apply_diff_spec(old(s)@, d.view()),
{
    let v = d.iter();
    let ghost s0 = s@;
    let mut i: usize = 0;
    while i < v.len()
        invariant
            idx_set_wf(s0),
            d.wf(),
            v@.to_set() == d.view(),
            0 <= i <= v.len(),
            idx_set_wf(s@),
            s@ == Set::new(
                |x: i32|
                    x > 0 && (s0.contains(x) || v@.take(i as int).contains(x)) && !v@.take(
                        i as int,
                    ).contains((-x) as i32),
            ),
        decreases v.len() - i,
    {
        let e = v[i];
        proof {
            assert(v@.to_set().contains(e));
            assert(v@.take(i as int + 1) =~= v@.take(i as int).push(e));
        }
        if e > 0 {
            fx_set_insert(s, e);
            proof {
                assert(!d.view().contains((-e) as i32));
                assert(!v@.take(i as int + 1).contains((-e) as i32)) by {
                    if v@.take(i as int + 1).contains((-e) as i32) {
                        assert(v@.contains((-e) as i32));
                        assert(v@.to_set().contains((-e) as i32));
                    }
                }
                assert(s@ =~= Set::new(
                    |x: i32|
                        x > 0 && (s0.contains(x) || v@.take(i as int + 1).contains(x)) && !v@.take(
                            i as int + 1,
                        ).contains((-x) as i32),
                ));
            }
        } else {
            proof {
                assert(e != 0 && e != i32::MIN);
                assert((-((-e) as i32)) as i32 == e);
                assert(!d.view().contains((-e) as i32));
                assert(!v@.take(i as int + 1).contains((-e) as i32)) by {
                    if v@.take(i as int + 1).contains((-e) as i32) {
                        assert(v@.contains((-e) as i32));
                        assert(v@.to_set().contains((-e) as i32));
                    }
                }
            }
            fx_set_remove(s, -e);
            proof {
                assert(s@ =~= Set::new(
                    |x: i32|
                        x > 0 && (s0.contains(x) || v@.take(i as int + 1).contains(x)) && !v@.take(
                            i as int + 1,
                        ).contains((-x) as i32),
                ));
            }
        }
        i = i + 1;
    }
    proof {
        assert(v@.take(v.len() as int) =~= v@);
        assert forall|x: i32| #[trigger] s@.contains(x) <==> apply_diff_spec(s0, d.view()).contains(
            x,
        ) by {
            assert(v@.to_set().contains(x) <==> v@.contains(x));
            assert(v@.to_set().contains((-x) as i32) <==> v@.contains((-x) as i32));
        }
        assert(s@ =~= apply_diff_spec(s0, d.view()));
    }
}

impl CacheAnchorSet {
    pub open spec fn wf(&self) -> bool {
        idx_set_wf(self.start@) && idx_set_wf(self.end@)
    }

    pub fn new() -> (s: Self)
        ensures
            s.wf(),
            s.start@ == Set::<i32>::empty(),
            s.end@ == Set::<i32>::empty(),
    {
        CacheAnchorSet { start: fx_set_new(), end: fx_set_new() }
    }

    /// The difference that turns `other` into `self`.
    pub fn calc_diff(&self, other: &Self) -> (d: AnchorSetDiff)
        requires
            self.wf(),
            other.wf(),
        ensures
            d.wf(),
            d.start.view() == diff_of(self.start@, other.start@),
            d.end.view() == diff_of(self.end@, other.end@),
    {
        let start = set_diff(&self.start, &other.start);
        let end = set_diff(&self.end, &other.end);
        AnchorSetDiff { start, end }
    }

    /// Applies a difference.
    pub fn apply_diff(&mut self, diff: &AnchorSetDiff)
        requires
            old(self).wf(),
            diff.wf(),
        ensures
            final(self).wf(),
            final(self).start@ == apply_diff_spec(old(self).start@, diff.start.view()),
            final(self).end@ == apply_diff_spec(old(self).end@, diff.end.view()),
    {
        if diff.start.is_empty() && diff.end.is_empty() {
            proof {
                assert(self.start@ =~= apply_diff_spec(self.start@, diff.start.view()));
                assert(self.end@ =~= apply_diff_spec(self.end@, diff.end.view()));
            }
            return;
        }
        apply_set_diff(&mut self.start, &diff.start);
        apply_set_diff(&mut self.end, &diff.end);
    }

    #[inline]
    pub fn contains_start(&self, ann: AnnIdx) -> (b: bool)
        ensures
            b == self.start@.contains(ann),
    {
        fx_set_contains(&self.start, ann)
    }

    #[inline]
    pub fn contains_end(&self, ann: AnnIdx) -> (b: bool)
        ensures
            b == self.end@.contains(ann),
    {
        fx_set_contains(&self.end, ann)
    }

    /// Adds the anchors of `other`.
    pub fn union_(&mut self, other: &Self)
        requires
            old(self).wf(),
            other.wf(),
        ensures
            final(self).wf(),
            final(self).start@ == old(self).start@.union(other.start@),
            final(self).end@ == old(self).end@.union(other.end@),
    {
        if !fx_set_is_empty(&other.start) {
            fx_set_extend(&mut self.start, &other.start);
        } else {
            proof {
                assert(self.start@ =~= self.start@.union(other.start@));
            }
        }
        if !fx_set_is_empty(&other.end) {
            fx_set_extend(&mut self.end, &other.end);
        } else {
            proof {
                assert(self.end@ =~= self.end@.union(other.end@));
            }
        }
    }

    /// Adds the anchors of one element, whatever their side.
    pub fn union_elem_set(&mut self, other: &ElemAnchorSet)
        requires
            old(self).wf(),
            other.wf(),
        ensures
            final(self).wf(),
            final(self).start@ == old(self).start@.union(other.start_before@).union(
                other.start_after@,
            ),
            final(self).end@ == old(self).end@.union(other.end_before@).union(other.end_after@),
    {
        extend_if_not_empty(&mut self.start, &other.start_before);
        extend_if_not_empty(&mut self.start, &other.start_after);
        extend_if_not_empty(&mut self.end, &other.end_before);
        extend_if_not_empty(&mut self.end, &other.end_after);
    }
}

/// Adds the values of `b` to `a`, skipping the call when `b` is empty.
fn extend_if_not_empty(a: &mut FxHashSet<i32>, b: &FxHashSet<i32>)
    requires
        idx_set_wf(old(a)@),
        idx_set_wf(b@),
    ensures
        idx_set_wf(final(a)@),
        final(a)@ == old(a)@.union(b@),
{
    if !fx_set_is_empty(b) {
        fx_set_extend(a, b);
    } else {
        proof {
            assert(a@ =~= a@.union(b@));
        }
    }
}

impl ElemAnchorSet {
    pub open spec fn wf(&self) -> bool {
        &&& idx_set_wf(self.start_before@)
        &&& idx_set_wf(self.end_before@)
        &&& idx_set_wf(self.start_after@)
        &&& idx_set_wf(self.end_after@)
    }

    pub fn new() -> (s: Self)
        ensures
            s.wf(),
            s.start_before@ == Set::<i32>::empty(),
            s.end_before@ == Set::<i32>::empty(),
            s.start_after@ == Set::<i32>::empty(),
            s.end_after@ == Set::<i32>::empty(),
    {
        ElemAnchorSet {
            start_before: fx_set_new(),
            end_before: fx_set_new(),
            start_after: fx_set_new(),
            end_after: fx_set_new(),
        }
    }

    /// Two elements can be merged when no anchor sits between them: the left
    /// one has no anchor after its end, the right one none before its start.
    pub fn can_merge(&self, rhs: &Self) -> (b: bool)
        ensures
            b == (self.start_after@ == Set::<i32>::empty() && self.end_after@ == Set::<
                i32,
            >::empty() && rhs.start_before@ == Set::<i32>::empty() && rhs.end_before@
                == Set::<i32>::empty()),
    {
        fx_set_is_empty(&self.start_after) && fx_set_is_empty(&self.end_after) && fx_set_is_empty(
            &rhs.start_before,
        ) && fx_set_is_empty(&rhs.end_before)
    }

    /// Appends `rhs`: the merged element's end anchors are those of `rhs`.
    pub fn merge_right(&mut self, rhs: &Self)
        ensures
            final(self).start_before@ == old(self).start_before@,
            final(self).end_before@ == old(self).end_before@,
            final(self).start_after@ == rhs.start_after@,
            final(self).end_after@ == rhs.end_after@,
    {
        self.start_after = fx_set_clone(&rhs.start_after);
        self.end_after = fx_set_clone(&rhs.end_after);
    }

    /// Prepends `left`: the merged element's start anchors are those of
    /// `left`.
    pub fn merge_left(&mut self, left: &Self)
        ensures
            final(self).start_before@ == left.start_before@,
            final(self).end_before@ == left.end_before@,
            final(self).start_after@ == old(self).start_after@,
            final(self).end_after@ == old(self).end_after@,
    {
        self.start_before = fx_set_clone(&left.start_before);
        self.end_before = fx_set_clone(&left.end_before);
    }

    pub fn has_start_before(&self) -> (b: bool)
        ensures
            b == (self.start_before@ != Set::<i32>::empty()),
    {
        !fx_set_is_empty(&self.start_before)
    }

    pub fn has_start_after(&self) -> (b: bool)
        ensures
            b == (self.start_after@ != Set::<i32>::empty()),
    {
        !fx_set_is_empty(&self.start_after)
    }

    /// Whether `ann` starts at this element, and whether it starts before it.
    pub fn contains_start(&self, ann: AnnIdx) -> (r: (bool, bool))
        ensures
            r.0 == (self.start_before@.contains(ann) || self.start_after@.contains(ann)),
            r.1 == self.start_before@.contains(ann),
    {
        let a = fx_set_contains(&self.start_before, ann);
        let b = fx_set_contains(&self.start_after, ann);
        (a || b, a)
    }

    /// Whether `ann` ends at this element, and whether it ends after it
    /// (includes it).
    pub fn contains_end(&self, ann: AnnIdx) -> (r: (bool, bool))
        ensures
            r.0 == (self.end_before@.contains(ann) || self.end_after@.contains(ann)),
            r.1 == self.end_after@.contains(ann),
    {
        let a = fx_set_contains(&self.end_before, ann);
        let b = fx_set_contains(&self.end_after, ann);
        (a || b, b)
    }

    /// Attaches an anchor of annotation `idx` on the given side.
    pub fn insert_ann(&mut self, idx: AnnIdx, type_: AnchorType, is_start: bool)
        requires
            old(self).wf(),
            idx > 0,
        ensures
            final(self).wf(),
            final(self).start_before@ == if is_start && type_ == AnchorType::Before {
                old(self).start_before@.insert(idx)
            } else {
                old(self).start_before@
            },
            final(self).start_after@ == if is_start && type_ == AnchorType::After {
                old(self).start_after@.insert(idx)
            } else {
                old(self).start_after@
            },
            final(self).end_before@ == if !is_start && type_ == AnchorType::Before {
                old(self).end_before@.insert(idx)
            } else {
                old(self).end_before@
            },
            final(self).end_after@ == if !is_start && type_ == AnchorType::After {
                old(self).end_after@.insert(idx)
            } else {
                old(self).end_after@
            },
    {
        if is_start {
            match type_ {
                AnchorType::Before => {
                    fx_set_insert(&mut self.start_before, idx);
                },
                AnchorType::After => {
                    fx_set_insert(&mut self.start_after, idx);
                },
            }
        } else {
            match type_ {
                AnchorType::Before => {
                    fx_set_insert(&mut self.end_before, idx);
                },
                AnchorType::After => {
                    fx_set_insert(&mut self.end_after, idx);
                },
            }
        }
    }

    /// Splits the element: the right part takes the anchors after the end,
    /// the left part keeps those before the start.
    pub fn split(&mut self) -> (right: ElemAnchorSet)
        requires
            old(self).wf(),
        ensures
            final(self).wf(),
            right.wf(),
            final(self).start_before@ == old(self).start_before@,
            final(self).end_before@ == old(self).end_before@,
            final(self).start_after@ == Set::<i32>::empty(),
            final(self).end_after@ == Set::<i32>::empty(),
            right.start_before@ == Set::<i32>::empty(),
            right.end_before@ == Set::<i32>::empty(),
            right.start_after@ == old(self).start_after@,
            right.end_after@ == old(self).end_after@,
    {
        let mut start_after = fx_set_new();
        std::mem::swap(&mut start_after, &mut self.start_after);
        let mut end_after = fx_set_new();
        std::mem::swap(&mut end_after, &mut self.end_after);
        ElemAnchorSet { start_before: fx_set_new(), end_before: fx_set_new(), start_after, end_after }
    }

    /// The anchors of a slice of the element: those before the start unless
    /// the slice does not start at the element's start, those after the end
    /// unless it does not reach the element's end.
    pub fn trim(&self, trim_start: bool, trim_end: bool) -> (r: ElemAnchorSet)
        requires
            self.wf(),
        ensures
            r.wf(),
            r.start_before@ == if trim_start {
                Set::<i32>::empty()
            } else {
                self.start_before@
            },
            r.end_before@ == if trim_start {
                Set::<i32>::empty()
            } else {
                self.end_before@
            },
            r.start_after@ == if trim_end {
                Set::<i32>::empty()
            } else {
                self.start_after@
            },
            r.end_after@ == if trim_end {
                Set::<i32>::empty()
            } else {
                self.end_after@
            },
    {
        let mut ans = ElemAnchorSet::new();
        if !trim_start {
            ans.start_before = fx_set_clone(&self.start_before);
            ans.end_before = fx_set_clone(&self.end_before);
        }
        if !trim_end {
            ans.start_after = fx_set_clone(&self.start_after);
            ans.end_after = fx_set_clone(&self.end_after);
        }
        ans
    }

    /// [`ElemAnchorSet::trim`] in place.
    pub fn trim_(&mut self, trim_start: bool, trim_end: bool)
        requires
            old(self).wf(),
        ensures
            final(self).wf(),
            final(self).start_before@ == if trim_start {
                Set::<i32>::empty()
            } else {
                old(self).start_before@
            },
            final(self).end_before@ == if trim_start {
                Set::<i32>::empty()
            } else {
                old(self).end_before@
            },
            final(self).start_after@ == if trim_end {
                Set::<i32>::empty()
            } else {
                old(self).start_after@
            },
            final(self).end_after@ == if trim_end {
                Set::<i32>::empty()
            } else {
                old(self).end_after@
            },
    {
        if trim_start {
            fx_set_clear(&mut self.start_before);
            fx_set_clear(&mut self.end_before);
        }
        if trim_end {
            fx_set_clear(&mut self.start_after);
            fx_set_clear(&mut self.end_after);
        }
    }

    pub fn has_after_anchor(&self) -> (b: bool)
        ensures
            b == (self.start_after@ != Set::<i32>::empty() || self.end_after@ != Set::<
                i32,
            >::empty()),
    {
        !fx_set_is_empty(&self.start_after) || !fx_set_is_empty(&self.end_after)
    }

    pub fn has_before_anchor(&self) -> (b: bool)
        ensures
            b == (self.start_before@ != Set::<i32>::empty() || self.end_before@ != Set::<
                i32,
            >::empty()),
    {
        !fx_set_is_empty(&self.start_before) || !fx_set_is_empty(&self.end_before)
    }
}

impl AnchorSetDiff {
    pub open spec fn wf(&self) -> bool {
        self.start.wf() && self.end.wf()
    }

    pub fn new() -> (d: Self)
        ensures
            d.wf(),
            d.start.view() == Set::<i32>::empty(),
            d.end.view() == Set::<i32>::empty(),
    {
        AnchorSetDiff { start: SmallSetI32::new(), end: SmallSetI32::new() }
    }

    /// Appends the difference `other` to this one.
    pub fn merge(&mut self, other: &Self)
        requires
            old(self).wf(),
            other.wf(),
        ensures
            final(self).wf(),
            final(self).start.view() == merge_diff_spec(old(self).start.view(), other.start.view()),
            final(self).end.view() == merge_diff_spec(old(self).end.view(), other.end.view()),
    {
        merge_small_set(&mut self.start, &other.start);
        merge_small_set(&mut self.end, &other.end);
    }

    /// Records that annotation `ann` (negated: its removal) starts or ends.
    pub fn insert(&mut self, ann: AnnIdx, is_start: bool)
        requires
            old(self).wf(),
            ann != 0,
            ann != i32::MIN,
        ensures
            final(self).wf(),
            final(self).start.view() == if is_start {
                crate::small_set::spec_insert(old(self).start.view(), ann)
            } else {
                old(self).start.view()
            },
            final(self).end.view() == if is_start {
                old(self).end.view()
            } else {
                crate::small_set::spec_insert(old(self).end.view(), ann)
            },
    {
        if is_start {
            self.start.insert(ann);
        } else {
            self.end.insert(ann);
        }
    }

    /// The difference that adds one start (or end) anchor.
    pub fn from_ann(ann: AnnIdx, is_start: bool) -> (d: AnchorSetDiff)
        requires
            ann != 0,
            ann != i32::MIN,
        ensures
            d.wf(),
            d.start.view() == if is_start {
                Set::<i32>::empty().insert(ann)
            } else {
                Set::<i32>::empty()
            },
            d.end.view() == if is_start {
                Set::<i32>::empty()
            } else {
                Set::<i32>::empty().insert(ann)
            },
    {
        let mut diff = AnchorSetDiff::new();
        diff.insert(ann, is_start);
        diff
    }
}

/// Inserts each value of `b` into `a` (a value cancels its negation).
fn merge_small_set(a: &mut SmallSetI32, b: &SmallSetI32)
    requires
        old(a).wf(),
        b.wf(),
    ensures
        final(a).wf(),
        final(a).view() == merge_diff_spec(old(a).view(), b.view()),
{
    let v = b.iter();
    let ghost a0 = a.view();
    let mut i: usize = 0;
    while i < v.len()
        invariant
            b.wf(),
            set_wf(a0),
            v@.to_set() == b.view(),
            v@.no_duplicates(),
            0 <= i <= v.len(),
            a.wf(),
            a.view() == merge_diff_spec(a0, v@.take(i as int).to_set()),
        decreases v.len() - i,
    {
        let x = v[i];
        proof {
            assert(v@.to_set().contains(x));
            assert(v@.take(i as int + 1) =~= v@.take(i as int).push(x));
            assert(v@.take(i as int + 1).to_set() =~= v@.take(i as int).to_set().insert(x));
            assert(!v@.take(i as int).contains(x)) by {
                if v@.take(i as int).contains(x) {
                    let k = choose|k: int| 0 <= k < i && v@[k] == x;
                    assert(v@[k] == v@[i as int]);
                }
            }
            assert((-((-x) as i32)) as i32 == x);
            assert(!b.view().contains((-x) as i32));
            assert(!v@.take(i as int).to_set().contains((-x) as i32)) by {
                if v@.take(i as int).to_set().contains((-x) as i32) {
                    assert(v@.contains((-x) as i32));
                    assert(v@.to_set().contains((-x) as i32));
                }
            }
        }
        a.insert(x);
        proof {
            let t = v@.take(i as int).to_set();
            assert forall|y: i32| #[trigger] a.view().contains(y) <==> merge_diff_spec(
                a0,
                t.insert(x),
            ).contains(y) by {
                if y != i32::MIN && y != 0 {
                    assert((-((-y) as i32)) as i32 == y);
                }
            }
            assert(a.view() =~= merge_diff_spec(a0, t.insert(x)));
        }
        i = i + 1;
    }
    proof {
        assert(v@.take(v.len() as int) =~= v@);
    }
}

/// The annotations active at a point while walking the text, with the
/// anchors after the current element held back until it is passed.
pub struct StyleCalculator {
    pub inner: FxHashSet<AnnIdx>,
    pub cached_start_after: FxHashSet<AnnIdx>,
    pub cached_end_after: FxHashSet<AnnIdx>,
}

impl StyleCalculator {
    pub open spec fn wf(&self) -> bool {
        &&& idx_set_wf(self.inner@)
        &&& idx_set_wf(self.cached_start_after@)
        &&& idx_set_wf(self.cached_end_after@)
    }

    pub fn new() -> (s: Self)
        ensures
            s.wf(),
            s.inner@ == Set::<i32>::empty(),
            s.cached_start_after@ == Set::<i32>::empty(),
            s.cached_end_after@ == Set::<i32>::empty(),
    {
        StyleCalculator {
            inner: fx_set_new(),
            cached_start_after: fx_set_new(),
            cached_end_after: fx_set_new(),
        }
    }

    /// A calculator in the same state.
    pub fn duplicate(&self) -> (r: Self)
        requires
            self.wf(),
        ensures
            r.wf(),
            r.inner@ == self.inner@,
            r.cached_start_after@ == self.cached_start_after@,
            r.cached_end_after@ == self.cached_end_after@,
    {
        StyleCalculator {
            inner: fx_set_clone(&self.inner),
            cached_start_after: fx_set_clone(&self.cached_start_after),
            cached_end_after: fx_set_clone(&self.cached_end_after),
        }
    }

    pub fn insert_start(&mut self, start: AnnIdx)
        requires
            old(self).wf(),
            start > 0,
        ensures
            final(self).wf(),
            final(self).inner@ == old(self).inner@.insert(start),
            final(self).cached_start_after@ == old(self).cached_start_after@,
            final(self).cached_end_after@ == old(self).cached_end_after@,
    {
        fx_set_insert(&mut self.inner, start);
    }

    /// Enters a subtree: the annotations that start in it become active.
    pub fn apply_node_start(&mut self, anchor_set: &CacheAnchorSet)
        requires
            old(self).wf(),
            anchor_set.wf(),
        ensures
            final(self).wf(),
            final(self).inner@ == old(self).inner@.union(anchor_set.start@),
            final(self).cached_start_after@ == old(self).cached_start_after@,
            final(self).cached_end_after@ == old(self).cached_end_after@,
    {
        extend_if_not_empty(&mut self.inner, &anchor_set.start);
    }

    /// Leaves a subtree: the annotations that end in it become inactive.
    pub fn apply_node_end(&mut self, anchor_set: &CacheAnchorSet)
        requires
            old(self).wf(),
            anchor_set.wf(),
        ensures
            final(self).wf(),
            final(self).inner@ == old(self).inner@.difference(anchor_set.end@),
            final(self).cached_start_after@ == old(self).cached_start_after@,
            final(self).cached_end_after@ == old(self).cached_end_after@,
    {
        remove_all(&mut self.inner, &anchor_set.end);
    }

    /// Passes the start of an element: its before-anchors take effect (starts
    /// first, then ends).
    pub fn apply_start(&mut self, anchor_set: &ElemAnchorSet)
        requires
            old(self).wf(),
            anchor_set.wf(),
        ensures
            final(self).wf(),
            final(self).inner@ == old(self).inner@.union(anchor_set.start_before@).difference(
                anchor_set.end_before@,
            ),
            final(self).cached_start_after@ == old(self).cached_start_after@,
            final(self).cached_end_after@ == old(self).cached_end_after@,
    {
        extend_if_not_empty(&mut self.inner, &anchor_set.start_before);
        remove_all(&mut self.inner, &anchor_set.end_before);
    }

    /// Passes the end of an element: its after-anchors take effect (starts
    /// first, then ends).
    pub fn apply_end(&mut self, anchor_set: &ElemAnchorSet)
        requires
            old(self).wf(),
            anchor_set.wf(),
        ensures
            final(self).wf(),
            final(self).inner@ == old(self).inner@.union(anchor_set.start_after@).difference(
                anchor_set.end_after@,
            ),
            final(self).cached_start_after@ == old(self).cached_start_after@,
            final(self).cached_end_after@ == old(self).cached_end_after@,
    {
        extend_if_not_empty(&mut self.inner, &anchor_set.start_after);
        remove_all(&mut self.inner, &anchor_set.end_after);
    }

    /// Holds back the after-anchors of an element until [`commit_cache`].
    pub fn cache_end(&mut self, anchor_set: &ElemAnchorSet)
        requires
            old(self).wf(),
            anchor_set.wf(),
        ensures
            final(self).wf(),
            final(self).inner@ == old(self).inner@,
            final(self).cached_start_after@ == old(self).cached_start_after@.union(
                anchor_set.start_after@,
            ),
            final(self).cached_end_after@ == old(self).cached_end_after@.union(
                anchor_set.end_after@,
            ),
    {
        extend_if_not_empty(&mut self.cached_start_after, &anchor_set.start_after);
        extend_if_not_empty(&mut self.cached_end_after, &anchor_set.end_after);
    }

    /// Lets the held-back anchors take effect (starts first, then ends) and
    /// forgets them.
    pub fn commit_cache(&mut self)
        requires
            old(self).wf(),
        ensures
            final(self).wf(),
            final(self).inner@ == old(self).inner@.union(old(self).cached_start_after@).difference(
                old(self).cached_end_after@,
            ),
            final(self).cached_start_after@ == Set::<i32>::empty(),
            final(self).cached_end_after@ == Set::<i32>::empty(),
    {
        if !fx_set_is_empty(&self.cached_start_after) {
            fx_set_extend(&mut self.inner, &self.cached_start_after);
            fx_set_clear(&mut self.cached_start_after);
        } else {
            proof {
                assert(self.inner@ =~= self.inner@.union(self.cached_start_after@));
            }
        }
        if !fx_set_is_empty(&self.cached_end_after) {
            remove_all(&mut self.inner, &self.cached_end_after);
            fx_set_clear(&mut self.cached_end_after);
        } else {
            proof {
                assert(self.inner@ =~= self.inner@.difference(self.cached_end_after@));
            }
        }
    }

    /// The active annotation indices, each once, in no stated order.
    pub fn iter(&self) -> (v: Vec<AnnIdx>)
        ensures
            v@.to_set() == self.inner@,
            v@.no_duplicates(),
    {
        fx_set_to_vec(&self.inner)
    }
}

/// The registry of annotations: index `i > 0` names the `i`-th registered
/// annotation (slot 0 is never used as an index), and each id maps to the
/// index it was last registered under.
pub struct AnnManager {
    pub idx_to_ann: Vec<Arc<Annotation>>,
    pub id_to_idx: AnnIdxMap,
}

impl AnnManager {
    pub open spec fn wf(&self) -> bool {
        &&& self.idx_to_ann.len() < i32::MAX
        &&& self.idx_to_ann.len() == 0 ==> self.id_to_idx@.dom() == Set::<OpID>::empty()
        &&& forall|id: OpID| #[trigger]
            self.id_to_idx@.contains_key(id) ==> 1 <= self.id_to_idx@[id] < self.idx_to_ann.len()
                && self.idx_to_ann@[self.id_to_idx@[id] as int].id == id
    }

    #[inline(always)]
    pub fn new() -> (m: Self)
        ensures
            m.wf(),
            m.idx_to_ann@.len() == 0,
    {
        AnnManager { idx_to_ann: Vec::new(), id_to_idx: fx_id_map_new() }
    }

    /// Registers an annotation and returns its index.
    pub fn register(&mut self, new: Arc<Annotation>) -> (idx: AnnIdx)
        requires
            old(self).wf(),
            old(self).idx_to_ann.len() + 2 < i32::MAX,
        ensures
            final(self).wf(),
            idx == if old(self).idx_to_ann.len() == 0 {
                1
            } else {
                old(self).idx_to_ann.len() as int
            },
            final(self).idx_to_ann@ == if old(self).idx_to_ann.len() == 0 {
                seq![new, new]
            } else {
                old(self).idx_to_ann@.push(new)
            },
            final(self).id_to_idx@ == old(self).id_to_idx@.insert(new.id, idx),
    {
        if self.idx_to_ann.len() == 0 {
            // slot 0 is not an index
            self.idx_to_ann.push(arc_ann_clone(&new));
        }
        let id = new.id;
        let idx = self.idx_to_ann.len() as i32;
        self.idx_to_ann.push(new);
        fx_id_map_insert(&mut self.id_to_idx, id, idx);
        proof {
            if old(self).idx_to_ann.len() == 0 {
                assert(self.idx_to_ann@ =~= seq![new, new]);
            }
        }
        idx
    }

    /// The annotation with index `idx`.
    #[inline(always)]
    pub fn get_ann_by_idx(&self, idx: AnnIdx) -> (r: Option<&Arc<Annotation>>)
        ensures
            r == if 0 <= idx < self.idx_to_ann.len() {
                Some(&self.idx_to_ann@[idx as int])
            } else {
                None
            },
    {
        if idx >= 0 && (idx as usize) < self.idx_to_ann.len() {
            Some(&self.idx_to_ann[idx as usize])
        } else {
            None
        }
    }

    /// The annotation last registered with id `id`.
    #[inline(always)]
    pub fn get_ann_by_id(&self, id: OpID) -> (r: Option<&Arc<Annotation>>)
        requires
            self.wf(),
        ensures
            r == if self.id_to_idx@.contains_key(id) {
                Some(&self.idx_to_ann@[self.id_to_idx@[id] as int])
            } else {
                None
            },
    {
        match fx_id_map_get(&self.id_to_idx, id) {
            Some(idx) => self.get_ann_by_idx(idx),
            None => None,
        }
    }

    /// The index under which `id` was last registered.
    #[inline(always)]
    pub fn get_idx_by_id(&self, id: OpID) -> (r: Option<AnnIdx>)
        ensures
            r == if self.id_to_idx@.contains_key(id) {
                Some(self.id_to_idx@[id])
            } else {
                None
            },
    {
        fx_id_map_get(&self.id_to_idx, id)
    }
}

/// The position in `res` of an annotation that competes with `ann`.
fn find_style_key(res: &Vec<Arc<Annotation>>, ann: &Annotation) -> (r: Option<usize>)
    ensures
        r matches Some(j) ==> j < res.len() && style_key(*res@[j as int]) == style_key(*ann),
        r is None ==> forall|i: int| 0 <= i < res.len() ==> style_key(*res@[i]) != style_key(*ann),
{
    let mut j: usize = 0;
    while j < res.len()
        invariant
            0 <= j <= res.len(),
            forall|i: int| 0 <= i < j ==> style_key(*res@[i]) != style_key(*ann),
        decreases res.len() - j,
    {
        if same_style_key(&res[j], ann) {
            return Some(j);
        }
        j = j + 1;
    }
    None
}

/// What decides whether two annotations compete: their type, and for an
/// inclusive annotation also its id (so that inclusive annotations never
/// compete with each other).
pub open spec fn style_key(a: Annotation) -> (Seq<char>, Option<OpID>) {
    (a.type_@, if a.behavior == Behavior::Inclusive {
        Some(a.id)
    } else {
        None
    })
}

/// Whether two annotations compete, see [`style_key`].
fn same_style_key(a: &Annotation, b: &Annotation) -> (r: bool)
    ensures
        r == (style_key(*a) == style_key(*b)),
{
    if a.type_ != b.type_ {
        return false;
    }
    let ka: Option<OpID> = if a.behavior == Behavior::Inclusive {
        Some(a.id)
    } else {
        None
    };
    let kb: Option<OpID> = if b.behavior == Behavior::Inclusive {
        Some(b.id)
    } else {
        None
    };
    match (ka, kb) {
        (None, None) => true,
        (Some(x), Some(y)) => x == y,
        _ => false,
    }
}

/// `res` holds a competitor of `a` (same [`style_key`]) whose lamport pair is
/// not smaller than that of `a`.
pub open spec fn dominated(res: Seq<Arc<Annotation>>, a: Annotation) -> bool {
    exists|i: int|
        #![trigger res[i]]
        0 <= i < res.len() && style_key(*res[i]) == style_key(a) && !lamport_lt(
            res[i].range_lamport,
            a.range_lamport,
        )
}

/// No two annotations of `res` compete.
pub open spec fn keys_distinct(res: Seq<Arc<Annotation>>) -> bool {
    forall|i: int, j: int|
        #![trigger res[i], res[j]]
        0 <= i < j < res.len() ==> style_key(*res[i]) != style_key(*res[j])
}

/// Annotation `a` is the annotation of one of the active indices.
pub open spec fn is_active(a: Annotation, inner: Set<i32>, manager: AnnManager) -> bool {
    exists|x: i32| #[trigger] inner.contains(x) && a == *manager.idx_to_ann@[x as int]
}

/// Adds `ann` to the winners so far: it replaces a competitor with a smaller
/// lamport pair, or is added when it has no competitor.
fn absorb(res: &mut Vec<Arc<Annotation>>, ann: &Arc<Annotation>)
    requires
        keys_distinct(old(res)@),
    ensures
        keys_distinct(final(res)@),
        forall|i: int|
            #![trigger final(res)@[i]]
            0 <= i < final(res)@.len() ==> final(res)@[i] == *ann || old(res)@.contains(
                final(res)@[i],
            ),
        dominated(final(res)@, **ann),
        forall|a: Annotation| dominated(old(res)@, a) ==> #[trigger] dominated(final(res)@, a),
{
    let ghost old_res = res@;
    match find_style_key(res, ann) {
        Some(j) => {
            if lamport_less(&res[j].range_lamport, &ann.range_lamport) {
                res.set(j, arc_ann_clone(ann));
                proof {
                    assert(res@[j as int] == *ann);
                    assert forall|a: Annotation| dominated(old_res, a) implies #[trigger] dominated(
                        res@,
                        a,
                    ) by {
                        let i = choose|i: int|
                            #![trigger old_res[i]]
                            0 <= i < old_res.len() && style_key(*old_res[i]) == style_key(a)
                                && !lamport_lt(old_res[i].range_lamport, a.range_lamport);
                        if i == j as int {
                            assert(style_key(*res@[i]) == style_key(a));
                        } else {
                            assert(res@[i] == old_res[i]);
                        }
                    }
                    assert forall|i: int|
                        #![trigger res@[i]]
                        0 <= i < res@.len() implies res@[i] == *ann || old_res.contains(
                            res@[i],
                        ) by {
                        if i != j as int {
                            assert(res@[i] == old_res[i]);
                        }
                    }
                }
            } else {
                proof {
                    assert(res@[j as int] == old_res[j as int]);
                }
            }
        },
        None => {
            res.push(arc_ann_clone(ann));
            proof {
                assert(res@[old_res.len() as int] == *ann);
                assert forall|a: Annotation| dominated(old_res, a) implies #[trigger] dominated(
                    res@,
                    a,
                ) by {
                    let i = choose|i: int|
                        #![trigger old_res[i]]
                        0 <= i < old_res.len() && style_key(*old_res[i]) == style_key(a)
                            && !lamport_lt(old_res[i].range_lamport, a.range_lamport);
                    assert(res@[i] == old_res[i]);
                }
                assert forall|i: int|
                    #![trigger res@[i]]
                    0 <= i < res@.len() implies res@[i] == *ann || old_res.contains(res@[i]) by {
                    if i < old_res.len() {
                        assert(res@[i] == old_res[i]);
                    }
                }
            }
        },
    }
}

impl StyleCalculator {
    /// The styles in effect: of the active annotations that compete (see
    /// [`style_key`]), the one with the greatest lamport pair wins. Each key
    /// appears once; among equal lamport pairs either may be returned.
    pub fn calc_styles(&self, manager: &AnnManager) -> (r: Vec<Arc<Annotation>>)
        requires
            self.wf(),
            forall|x: i32| #[trigger] self.inner@.contains(x) ==> x < manager.idx_to_ann.len(),
        ensures
            forall|i: int|
                #![trigger r@[i]]
                0 <= i < r.len() ==> is_active(*r@[i], self.inner@, *manager),
            keys_distinct(r@),
            forall|x: i32| #[trigger]
                self.inner@.contains(x) ==> dominated(r@, *manager.idx_to_ann@[x as int]),
    {
        let v = fx_set_to_vec(&self.inner);
        let mut res: Vec<Arc<Annotation>> = Vec::new();
        let mut k: usize = 0;
        while k < v.len()
            invariant
                self.wf(),
                forall|x: i32| #[trigger] self.inner@.contains(x) ==> x < manager.idx_to_ann.len(),
                v@.to_set() == self.inner@,
                0 <= k <= v.len(),
                forall|i: int|
                    #![trigger res@[i]]
                    0 <= i < res.len() ==> is_active(*res@[i], self.inner@, *manager),
                keys_distinct(res@),
                forall|t: int|
                    0 <= t < k ==> dominated(res@, *manager.idx_to_ann@[#[trigger] v@[t] as int]),
            decreases v.len() - k,
        {
            let x = v[k];
            proof {
                assert(v@.to_set().contains(x));
            }
            let ann: &Arc<Annotation> = &manager.idx_to_ann[x as usize];
            let ghost old_res = res@;
            absorb(&mut res, ann);
            proof {
                assert forall|t: int| 0 <= t < k + 1 implies dominated(
                    res@,
                    *manager.idx_to_ann@[#[trigger] v@[t] as int],
                ) by {
                    if t < k {
                        assert(dominated(old_res, *manager.idx_to_ann@[v@[t] as int]));
                    }
                }
                assert forall|i: int|
                    #![trigger res@[i]]
                    0 <= i < res.len() implies is_active(*res@[i], self.inner@, *manager) by {
                    if res@[i] == *ann {
                        assert(self.inner@.contains(x));
                    } else {
                        let j = choose|j: int| 0 <= j < old_res.len() && old_res[j] == res@[i];
                        assert(is_active(*old_res[j], self.inner@, *manager));
                    }
                }
            }
            k = k + 1;
        }
        proof {
            assert forall|x: i32| #[trigger] self.inner@.contains(x) implies dominated(
                res@,
                *manager.idx_to_ann@[x as int],
            ) by {
                assert(v@.to_set().contains(x));
                let t = choose|t: int| 0 <= t < v.len() && v@[t] == x;
                assert(dominated(res@, *manager.idx_to_ann@[v@[t] as int]));
            }
        }
        res
    }
}

/// Removes from `a` every value of `b`.
fn remove_all(a: &mut FxHashSet<i32>, b: &FxHashSet<i32>)
    requires
        idx_set_wf(old(a)@),
    ensures
        idx_set_wf(final(a)@),
        final(a)@ == old(a)@.difference(b@),
{
    if fx_set_is_empty(b) {
        proof {
            assert(a@ =~= a@.difference(b@));
        }
        return;
    }
    let v = fx_set_to_vec(b);
    let ghost a0 = a@;
    let mut i: usize = 0;
    while i < v.len()
        invariant
            idx_set_wf(a0),
            v@.to_set() == b@,
            0 <= i <= v.len(),
            idx_set_wf(a@),
            a@ == a0.difference(v@.take(i as int).to_set()),
        decreases v.len() - i,
    {
        let x = v[i];
        proof {
            assert(v@.take(i as int + 1) =~= v@.take(i as int).push(x));
            assert(v@.take(i as int + 1).to_set() =~= v@.take(i as int).to_set().insert(x));
        }
        fx_set_remove(a, x);
        proof {
            assert(a@ =~= a0.difference(v@.take(i as int + 1).to_set()));
        }
        i = i + 1;
    }
    proof {
        assert(v@.take(v.len() as int) =~= v@);
    }
}

/// A run of text with the styles in effect on it: the attributes map each
/// style type to its value.
pub struct Span {
    pub insert: String,
    pub attributes: Vec<(String, serde_json::Value)>,
}

impl Span {
    /// Length of the text in bytes.
    pub fn len(&self) -> (n: usize)
        ensures
            n == vstd::utf8::encode_utf8(self.insert@).len(),
    {
        self.insert.as_str().as_bytes().len()
    }

    pub fn is_empty(&self) -> (b: bool)
        ensures
            b == (self.insert@.len() == 0),
    {
        self.insert.as_str().is_empty()
    }

    pub fn as_str(&self) -> (s: &str)
        ensures
            s@ == self.insert@,
    {
        self.insert.as_str()
    }
}

} // verus!
