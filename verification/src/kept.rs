//! The styles that local edits keep: every character already in the text,
//! and not deleted, keeps the annotations active on it.
use vstd::prelude::*;

use crate::anchors::{
    elems_prefix, lemma_holder_exists, lemma_holds_iff, lemma_holds_unique, lemma_prefix_step,
    lemma_same_active_split, same_active_but,
};
use crate::rich_text::{active_after, active_at, holds_position, pass_end, pass_start, text_of_elems};
use crate::rich_tree::Elem;

verus! {

broadcast use vstd::seq_lib::group_seq_properties;

/// Where text byte `p` moves when `n` bytes are inserted at byte `index`.
pub open spec fn shifted(p: int, index: int, n: int) -> int {
    if p < index {
        p
    } else {
        p + n
    }
}

/// Every byte of the text of `a` (from the initial styles `ia`) keeps the
/// annotations active on it where it moves in the text of `b` (from `ib`)
/// when `n` bytes are inserted at `index`.
pub open spec fn styles_kept(a: Seq<Elem>, ia: Set<i32>, b: Seq<Elem>, ib: Set<i32>, index: int, n: int) -> bool {
    forall|ka: int, kb: int, p: int|
        #![trigger holds_position(a, ka, p), holds_position(b, kb, shifted(p, index, n))]
        0 <= p && ka < a.len() && kb < b.len() && holds_position(a, ka, p) && holds_position(
            b,
            kb,
            shifted(p, index, n),
        ) ==> active_at(b, ib, kb) == active_at(a, ia, ka)
}

/// Passing runs of elements with the same anchors from the same sets gives
/// the same sets.
proof fn lemma_after_eq(a: Seq<Elem>, ia: Set<i32>, b: Seq<Elem>, ib: Set<i32>, da: int, db: int, n: int)
    requires
        0 <= n,
        0 <= da,
        da + n <= a.len(),
        0 <= db,
        db + n <= b.len(),
        forall|t: int| 0 <= t < n ==> (#[trigger] a[da + t]).anchor_set == b[db + t].anchor_set,
        active_after(a.take(da), ia) == active_after(b.take(db), ib),
    ensures
        active_after(a.take(da + n), ia) == active_after(b.take(db + n), ib),
    decreases n,
{
    if n > 0 {
        lemma_after_eq(a, ia, b, ib, da, db, n - 1);
        assert(a.take(da + n).drop_last() =~= a.take(da + n - 1));
        assert(b.take(db + n).drop_last() =~= b.take(db + n - 1));
        assert(a[da + (n - 1)].anchor_set == b[db + (n - 1)].anchor_set);
    }
}

/// Nothing inserted: every byte keeps its annotations.
pub proof fn lemma_kept_same(s: Seq<Elem>, init: Set<i32>, index: int)
    ensures
        styles_kept(s, init, s, init, index, 0),
{
    assert forall|ka: int, kb: int, p: int|
        #![trigger holds_position(s, ka, p), holds_position(s, kb, shifted(p, index, 0))]
        0 <= p && ka < s.len() && kb < s.len() && holds_position(s, ka, p) && holds_position(
            s,
            kb,
            shifted(p, index, 0),
        ) implies active_at(s, init, kb) == active_at(s, init, ka) by {
        lemma_holds_unique(s, ka, kb, p);
    }
}

/// A new element with no anchors put at place `j`: the bytes before it stay,
/// the bytes after it move by its length, all with their annotations.
pub proof fn lemma_kept_insert_elem(a: Seq<Elem>, b: Seq<Elem>, j: int, init: Set<i32>)
    requires
        forall|i: int| 0 <= i < a.len() ==> (#[trigger] a[i]).wf(),
        forall|i: int| 0 <= i < b.len() ==> (#[trigger] b[i]).wf(),
        0 <= j <= a.len(),
        b == a.take(j) + seq![b[j]] + a.skip(j),
        b[j].anchor_set.start_before@ == Set::<i32>::empty(),
        b[j].anchor_set.end_before@ == Set::<i32>::empty(),
        b[j].anchor_set.start_after@ == Set::<i32>::empty(),
        b[j].anchor_set.end_after@ == Set::<i32>::empty(),
    ensures
        styles_kept(a, init, b, init, elems_prefix(a, j), b[j].visible().len() as int),
{
    let n = b[j].visible().len() as int;
    let index = elems_prefix(a, j);
    assert(b.len() == a.len() + 1);
    assert forall|t: int| 0 <= t < j implies #[trigger] b[t] == a[t] by {
        assert(b[t] == a.take(j)[t]);
    }
    assert forall|t: int| j < t < b.len() implies #[trigger] b[t] == a[t - 1] by {
        assert(b[t] == a.skip(j)[t - j - 1]);
    }
    assert forall|t: int| 0 <= t <= j implies #[trigger] elems_prefix(b, t) == elems_prefix(a, t) by {
        assert(b.take(t) =~= a.take(t));
    }
    assert forall|t: int| j < t <= b.len() implies #[trigger] elems_prefix(b, t) == elems_prefix(a, t - 1)
        + n by {
        let mid = a.subrange(j, t - 1);
        assert(b.take(t) =~= a.take(j) + seq![b[j]] + mid);
        assert(a.take(t - 1) =~= a.take(j) + mid);
        crate::rich_text::lemma_text_concat(a.take(j) + seq![b[j]], mid);
        crate::rich_text::lemma_text_concat(a.take(j), seq![b[j]]);
        crate::rich_text::lemma_text_concat(a.take(j), mid);
        crate::rich_text::lemma_text_single(b[j]);
    }
    assert(a.take(0) =~= Seq::<Elem>::empty());
    assert(b.take(0) =~= Seq::<Elem>::empty());
    assert forall|t: int| 0 <= t < j implies (#[trigger] a[0 + t]).anchor_set == b[0 + t].anchor_set by {
        assert(b[t] == a[t]);
    }
    lemma_after_eq(a, init, b, init, 0, 0, j);
    assert(b.take(j + 1).drop_last() =~= b.take(j));
    let aj = active_after(a.take(j), init);
    assert(pass_end(b[j], pass_start(b[j], aj)) =~= aj);
    assert(active_after(b.take(j + 1), init) == aj);
    assert forall|t: int| 0 <= t < a.len() - j implies (#[trigger] a[j + t]).anchor_set == b[j + 1
        + t].anchor_set by {
        assert(b[j + 1 + t] == a[j + 1 + t - 1]);
    }
    assert forall|ka: int, kb: int, p: int|
        #![trigger holds_position(a, ka, p), holds_position(b, kb, shifted(p, index, n))]
        0 <= p && ka < a.len() && kb < b.len() && holds_position(a, ka, p) && holds_position(
            b,
            kb,
            shifted(p, index, n),
        ) implies active_at(b, init, kb) == active_at(a, init, ka) by {
        lemma_holds_iff(a, ka, p);
        lemma_prefix_step(a, ka);
        if ka < j {
            crate::rich_text::lemma_prefix_len_mono(a, ka + 1, j);
            assert(b[ka] == a[ka]);
            lemma_prefix_step(b, ka);
            lemma_holds_iff(b, ka, p);
            lemma_holds_unique(b, ka, kb, p);
            lemma_after_eq(a, init, b, init, 0, 0, ka);
        } else {
            crate::rich_text::lemma_prefix_len_mono(a, j, ka);
            assert(b[ka + 1] == a[ka]);
            lemma_prefix_step(b, ka + 1);
            lemma_holds_iff(b, ka + 1, p + n);
            lemma_holds_unique(b, ka + 1, kb, p + n);
            lemma_after_eq(a, init, b, init, j, j + 1, ka - j);
        }
    }
}

/// An element extended at its end, with the same status and anchors: the
/// bytes up to its old end stay, the later ones move by the added length,
/// all with their annotations.
pub proof fn lemma_kept_extend(a: Seq<Elem>, b: Seq<Elem>, i: int, init: Set<i32>, extra: Seq<u8>)
    requires
        forall|k: int| 0 <= k < a.len() ==> (#[trigger] a[k]).wf(),
        forall|k: int| 0 <= k < b.len() ==> (#[trigger] b[k]).wf(),
        0 <= i < a.len(),
        b == a.take(i) + seq![b[i]] + a.skip(i + 1),
        !a[i].status.spec_is_dead(),
        b[i].status == a[i].status,
        b[i].bytes() == a[i].bytes() + extra,
        b[i].anchor_set == a[i].anchor_set,
    ensures
        styles_kept(a, init, b, init, elems_prefix(a, i + 1), extra.len() as int),
{
    let n = extra.len() as int;
    let index = elems_prefix(a, i + 1);
    assert(b.len() == a.len());
    assert forall|t: int| 0 <= t < b.len() && t != i implies #[trigger] b[t] == a[t] by {
        if t < i {
            assert(b[t] == a.take(i)[t]);
        } else {
            assert(b[t] == a.skip(i + 1)[t - i - 1]);
        }
    }
    assert forall|t: int| 0 <= t <= i implies #[trigger] elems_prefix(b, t) == elems_prefix(a, t) by {
        assert(b.take(t) =~= a.take(t));
    }
    assert forall|t: int| i < t <= b.len() implies #[trigger] elems_prefix(b, t) == elems_prefix(a, t) + n by {
        let mid = a.subrange(i + 1, t);
        assert(b.take(t) =~= a.take(i) + seq![b[i]] + mid);
        assert(a.take(t) =~= a.take(i) + seq![a[i]] + mid);
        crate::rich_text::lemma_text_concat(a.take(i) + seq![b[i]], mid);
        crate::rich_text::lemma_text_concat(a.take(i), seq![b[i]]);
        crate::rich_text::lemma_text_concat(a.take(i) + seq![a[i]], mid);
        crate::rich_text::lemma_text_concat(a.take(i), seq![a[i]]);
        crate::rich_text::lemma_text_single(b[i]);
        crate::rich_text::lemma_text_single(a[i]);
    }
    assert(a.take(0) =~= Seq::<Elem>::empty());
    assert(b.take(0) =~= Seq::<Elem>::empty());
    assert forall|t: int| 0 <= t < a.len() implies (#[trigger] a[0 + t]).anchor_set == b[0 + t].anchor_set by {
        if t != i {
            assert(b[t] == a[t]);
        }
    }
    assert forall|ka: int, kb: int, p: int|
        #![trigger holds_position(a, ka, p), holds_position(b, kb, shifted(p, index, n))]
        0 <= p && ka < a.len() && kb < b.len() && holds_position(a, ka, p) && holds_position(
            b,
            kb,
            shifted(p, index, n),
        ) implies active_at(b, init, kb) == active_at(a, init, ka) by {
        lemma_holds_iff(a, ka, p);
        lemma_prefix_step(a, ka);
        lemma_prefix_step(b, ka);
        if ka <= i {
            crate::rich_text::lemma_prefix_len_mono(a, ka + 1, i + 1);
            lemma_holds_iff(b, ka, p);
            lemma_holds_unique(b, ka, kb, p);
        } else {
            crate::rich_text::lemma_prefix_len_mono(a, i + 1, ka);
            lemma_holds_iff(b, ka, p + n);
            lemma_holds_unique(b, ka, kb, p + n);
        }
        lemma_after_eq(a, init, b, init, 0, 0, ka);
        assert(a[0 + ka].anchor_set == b[0 + ka].anchor_set);
    }
}

/// Splitting an element, the left part keeping its before anchors and the
/// right part its after anchors: every byte keeps its annotations.
pub proof fn lemma_kept_split(a: Seq<Elem>, b: Seq<Elem>, i: int, init: Set<i32>, index: int)
    requires
        forall|j: int| 0 <= j < a.len() ==> (#[trigger] a[j]).wf(),
        forall|j: int| 0 <= j < b.len() ==> (#[trigger] b[j]).wf(),
        0 <= i < a.len(),
        b == a.take(i) + seq![b[i], b[i + 1]] + a.skip(i + 1),
        b[i].visible() + b[i + 1].visible() == a[i].visible(),
        b[i].status == a[i].status,
        b[i + 1].status == a[i].status,
        b[i].anchor_set.start_before@ == a[i].anchor_set.start_before@,
        b[i].anchor_set.end_before@ == a[i].anchor_set.end_before@,
        b[i].anchor_set.start_after@ == Set::<i32>::empty(),
        b[i].anchor_set.end_after@ == Set::<i32>::empty(),
        b[i + 1].anchor_set.start_before@ == Set::<i32>::empty(),
        b[i + 1].anchor_set.end_before@ == Set::<i32>::empty(),
        b[i + 1].anchor_set.start_after@ == a[i].anchor_set.start_after@,
        b[i + 1].anchor_set.end_after@ == a[i].anchor_set.end_after@,
    ensures
        styles_kept(a, init, b, init, index, 0),
{
    let e = a[i];
    let emp = Set::<i32>::empty();
    assert forall|x: i32| #[trigger] same_active_but(a, init, b, init, x) by {
        assert(emp.remove(x) =~= emp);
        lemma_same_active_split(a, b, i, x, init);
    }
    assert forall|ka: int, kb: int, p: int|
        #![trigger holds_position(a, ka, p), holds_position(b, kb, shifted(p, index, 0))]
        0 <= p && ka < a.len() && kb < b.len() && holds_position(a, ka, p) && holds_position(
            b,
            kb,
            shifted(p, index, 0),
        ) implies active_at(b, init, kb) == active_at(a, init, ka) by {
        let sa = active_at(a, init, ka);
        let sb = active_at(b, init, kb);
        assert(same_active_but(a, init, b, init, 0));
        assert(same_active_but(a, init, b, init, 1));
        assert(sb.remove(0) == sa.remove(0));
        assert(sb.remove(1) == sa.remove(1));
        assert forall|y: i32| sb.contains(y) == sa.contains(y) by {
            if y != 0 {
                assert(sb.remove(0).contains(y) == sb.contains(y));
                assert(sa.remove(0).contains(y) == sa.contains(y));
            } else {
                assert(sb.remove(1).contains(y) == sb.contains(y));
                assert(sa.remove(1).contains(y) == sa.contains(y));
            }
        }
        assert(sb =~= sa);
    }
}

/// Keeping the annotations of every byte without moving it, then while
/// inserting, keeps them while inserting.
pub proof fn lemma_kept_then(
    a: Seq<Elem>,
    ia: Set<i32>,
    b: Seq<Elem>,
    ib: Set<i32>,
    c: Seq<Elem>,
    ic: Set<i32>,
    index: int,
    n: int,
)
    requires
        forall|j: int| 0 <= j < b.len() ==> (#[trigger] b[j]).wf(),
        text_of_elems(a).len() == text_of_elems(b).len(),
        styles_kept(a, ia, b, ib, index, 0),
        styles_kept(b, ib, c, ic, index, n),
    ensures
        styles_kept(a, ia, c, ic, index, n),
{
    assert forall|ka: int, kc: int, p: int|
        #![trigger holds_position(a, ka, p), holds_position(c, kc, shifted(p, index, n))]
        0 <= p && ka < a.len() && kc < c.len() && holds_position(a, ka, p) && holds_position(
            c,
            kc,
            shifted(p, index, n),
        ) implies active_at(c, ic, kc) == active_at(a, ia, ka) by {
        crate::rich_text::lemma_prefix_len_mono(a, ka + 1, a.len() as int);
        assert(a.take(a.len() as int) =~= a);
        let kb = lemma_holder_exists(b, p);
        assert(shifted(p, index, 0) == p);
    }
}

/// Keeping every byte's annotations in place holds both ways.
pub proof fn lemma_kept_symm(a: Seq<Elem>, ia: Set<i32>, b: Seq<Elem>, ib: Set<i32>, index: int)
    requires
        styles_kept(a, ia, b, ib, index, 0),
    ensures
        styles_kept(b, ib, a, ia, index, 0),
{
    assert forall|kb: int, ka: int, p: int|
        #![trigger holds_position(b, kb, p), holds_position(a, ka, shifted(p, index, 0))]
        0 <= p && kb < b.len() && ka < a.len() && holds_position(b, kb, p) && holds_position(
            a,
            ka,
            shifted(p, index, 0),
        ) implies active_at(a, ia, ka) == active_at(b, ib, kb) by {
        assert(shifted(p, index, 0) == p);
    }
}

/// Keeping the annotations through two edits keeps them through both, the
/// second edit moving the bytes as [`shifted`] with `i2`, `n2` after the
/// first with `i1`, `n1`, together as with `i3`, `n3`.
pub proof fn lemma_kept_compose(
    x: Seq<Elem>,
    ix: Set<i32>,
    y: Seq<Elem>,
    iy: Set<i32>,
    z: Seq<Elem>,
    iz: Set<i32>,
    i1: int,
    n1: int,
    i2: int,
    n2: int,
    i3: int,
    n3: int,
)
    requires
        forall|j: int| 0 <= j < y.len() ==> (#[trigger] y[j]).wf(),
        0 <= n1,
        text_of_elems(y).len() == text_of_elems(x).len() + n1,
        styles_kept(x, ix, y, iy, i1, n1),
        styles_kept(y, iy, z, iz, i2, n2),
        forall|q: int| 0 <= q ==> #[trigger] shifted(shifted(q, i1, n1), i2, n2) == shifted(q, i3, n3),
    ensures
        styles_kept(x, ix, z, iz, i3, n3),
{
    assert forall|kx: int, kz: int, p: int|
        #![trigger holds_position(x, kx, p), holds_position(z, kz, shifted(p, i3, n3))]
        0 <= p && kx < x.len() && kz < z.len() && holds_position(x, kx, p) && holds_position(
            z,
            kz,
            shifted(p, i3, n3),
        ) implies active_at(z, iz, kz) == active_at(x, ix, kx) by {
        crate::rich_text::lemma_prefix_len_mono(x, kx + 1, x.len() as int);
        assert(x.take(x.len() as int) =~= x);
        let q = shifted(p, i1, n1);
        assert(shifted(shifted(p, i1, n1), i2, n2) == shifted(p, i3, n3));
        let ky = lemma_holder_exists(y, q);
        assert(holds_position(y, ky, shifted(p, i1, n1)));
        assert(holds_position(z, kz, shifted(q, i2, n2)));
    }
}

/// Marking visible element `j` deleted: every other byte keeps its
/// annotations, the later ones moving back by the element's length.
pub proof fn lemma_kept_kill(a: Seq<Elem>, b: Seq<Elem>, j: int, init: Set<i32>)
    requires
        forall|i: int| 0 <= i < a.len() ==> (#[trigger] a[i]).wf(),
        forall|i: int| 0 <= i < b.len() ==> (#[trigger] b[i]).wf(),
        0 <= j < a.len(),
        b == a.update(j, b[j]),
        !a[j].status.spec_is_dead(),
        b[j].status.spec_is_dead(),
        b[j].anchor_set == a[j].anchor_set,
    ensures
        styles_kept(b, init, a, init, elems_prefix(a, j), a[j].visible().len() as int),
        text_of_elems(a).len() == text_of_elems(b).len() + a[j].visible().len(),
{
    let n = a[j].visible().len() as int;
    let index = elems_prefix(a, j);
    assert(b.len() == a.len());
    assert forall|t: int| 0 <= t <= j implies #[trigger] elems_prefix(b, t) == elems_prefix(a, t) by {
        assert(b.take(t) =~= a.take(t));
    }
    assert forall|t: int| j < t <= b.len() implies #[trigger] elems_prefix(b, t) + n == elems_prefix(a, t) by {
        let mid = a.subrange(j + 1, t);
        assert(b.take(t) =~= a.take(j) + seq![b[j]] + mid);
        assert(a.take(t) =~= a.take(j) + seq![a[j]] + mid);
        crate::rich_text::lemma_text_concat(a.take(j) + seq![b[j]], mid);
        crate::rich_text::lemma_text_concat(a.take(j), seq![b[j]]);
        crate::rich_text::lemma_text_concat(a.take(j) + seq![a[j]], mid);
        crate::rich_text::lemma_text_concat(a.take(j), seq![a[j]]);
        crate::rich_text::lemma_text_single(b[j]);
        crate::rich_text::lemma_text_single(a[j]);
    }
    assert(a.take(0) =~= Seq::<Elem>::empty());
    assert(b.take(0) =~= Seq::<Elem>::empty());
    assert(a.take(a.len() as int) =~= a);
    assert(b.take(b.len() as int) =~= b);
    assert(elems_prefix(b, b.len() as int) + n == elems_prefix(a, a.len() as int));
    assert forall|t: int| 0 <= t < a.len() implies (#[trigger] b[0 + t]).anchor_set == a[0 + t].anchor_set by {}
    assert forall|kb: int, ka: int, p: int|
        #![trigger holds_position(b, kb, p), holds_position(a, ka, shifted(p, index, n))]
        0 <= p && kb < b.len() && ka < a.len() && holds_position(b, kb, p) && holds_position(
            a,
            ka,
            shifted(p, index, n),
        ) implies active_at(a, init, ka) == active_at(b, init, kb) by {
        lemma_holds_iff(b, kb, p);
        lemma_prefix_step(b, kb);
        lemma_prefix_step(a, kb);
        lemma_prefix_step(a, j);
        assert(kb != j);
        if kb < j {
            crate::rich_text::lemma_prefix_len_mono(b, kb + 1, j);
            lemma_holds_iff(a, kb, p);
            lemma_holds_unique(a, kb, ka, p);
        } else {
            crate::rich_text::lemma_prefix_len_mono(b, j + 1, kb);
            lemma_holds_iff(a, kb, p + n);
            lemma_holds_unique(a, kb, ka, p + n);
        }
        lemma_after_eq(b, init, a, init, 0, 0, kb);
        assert(b[0 + kb].anchor_set == a[0 + kb].anchor_set);
    }
}

/// Element `i` of `a` split in two at `k`, as [`Elem::split`] does: the
/// left part with its before anchors, the right part with its after anchors.
pub open spec fn split_pieces(e: Elem, l: Elem, r: Elem, k: int) -> bool {
    &&& l.wf()
    &&& r.wf()
    &&& l.bytes() == e.bytes().take(k)
    &&& r.bytes() == e.bytes().skip(k)
    &&& l.status == e.status
    &&& r.status == e.status
    &&& l.anchor_set.start_before@ == e.anchor_set.start_before@
    &&& l.anchor_set.end_before@ == e.anchor_set.end_before@
    &&& l.anchor_set.start_after@ == Set::<i32>::empty()
    &&& l.anchor_set.end_after@ == Set::<i32>::empty()
    &&& r.anchor_set.start_before@ == Set::<i32>::empty()
    &&& r.anchor_set.end_before@ == Set::<i32>::empty()
    &&& r.anchor_set.start_after@ == e.anchor_set.start_after@
    &&& r.anchor_set.end_after@ == e.anchor_set.end_after@
}

/// Splitting element `i` keeps every byte's annotations, both ways.
proof fn lemma_kept_split_back(a: Seq<Elem>, i: int, l: Elem, r: Elem, k: int, init: Set<i32>, index: int)
    requires
        forall|j: int| 0 <= j < a.len() ==> (#[trigger] a[j]).wf(),
        0 <= i < a.len(),
        0 < k < a[i].bytes().len(),
        split_pieces(a[i], l, r, k),
    ensures
        ({
            let b = a.take(i) + seq![l, r] + a.skip(i + 1);
            &&& styles_kept(b, init, a, init, index, 0)
            &&& text_of_elems(b).len() == text_of_elems(a).len()
            &&& forall|j: int| 0 <= j < b.len() ==> (#[trigger] b[j]).wf()
            &&& elems_prefix(b, i + 1) == elems_prefix(a, i) + l.visible().len()
            &&& forall|j: int| 0 <= j <= i ==> #[trigger] elems_prefix(b, j) == elems_prefix(a, j)
        }),
{
    let b = a.take(i) + seq![l, r] + a.skip(i + 1);
    assert(b[i] == l);
    assert(b[i + 1] == r);
    assert(b =~= a.take(i) + seq![b[i], b[i + 1]] + a.skip(i + 1));
    assert(a[i].bytes() =~= l.bytes() + r.bytes());
    assert(l.visible() + r.visible() =~= a[i].visible());
    assert forall|j: int| 0 <= j < b.len() implies (#[trigger] b[j]).wf() by {
        if j < i {
            assert(b[j] == a[j]);
        } else if j > i + 1 {
            assert(b[j] == a[j - 1]);
        }
    }
    crate::anchors::lemma_prefix_split(a, b, i);
    assert(b.take(b.len() as int) =~= b);
    assert(a.take(a.len() as int) =~= a);
    assert(elems_prefix(b, b.len() as int) == elems_prefix(a, a.len() as int));
    lemma_kept_split(a, b, i, init, index);
    lemma_kept_symm(a, init, b, init, index);
    assert(styles_kept(b, init, a, init, index, 0));
}

/// Deleting the bytes `x..y` of visible element `i` the way it is done in
/// place (split off the bytes before `x` and after `y`, mark the middle
/// deleted): every other byte keeps its annotations, the later ones moving
/// back by `y - x`.
#[verifier::rlimit(60)]
pub proof fn lemma_kept_kill_range(
    a: Seq<Elem>,
    fin: Seq<Elem>,
    i: int,
    x: int,
    y: int,
    left: Elem,
    r1: Elem,
    d0: Elem,
    ed: Elem,
    right: Elem,
    init: Set<i32>,
)
    requires
        forall|j: int| 0 <= j < a.len() ==> (#[trigger] a[j]).wf(),
        forall|j: int| 0 <= j < fin.len() ==> (#[trigger] fin[j]).wf(),
        0 <= i < a.len(),
        !a[i].status.spec_is_dead(),
        0 <= x < y <= a[i].bytes().len(),
        x > 0 ==> split_pieces(a[i], left, r1, x),
        x == 0 ==> r1 == a[i],
        y < a[i].bytes().len() ==> split_pieces(r1, d0, right, y - x),
        y == a[i].bytes().len() ==> d0 == r1,
        ed.status.spec_is_dead(),
        ed.anchor_set == d0.anchor_set,
        ed.string == d0.string,
        fin == a.take(i) + (if x > 0 {
            seq![left]
        } else {
            Seq::empty()
        }) + seq![ed] + (if y < a[i].bytes().len() {
            seq![right]
        } else {
            Seq::empty()
        }) + a.skip(i + 1),
    ensures
        styles_kept(fin, init, a, init, elems_prefix(a, i) + x, y - x),
        text_of_elems(a).len() == text_of_elems(fin).len() + (y - x),
{
    let len = a[i].bytes().len() as int;
    let index = elems_prefix(a, i) + x;
    let s1 = if x > 0 {
        a.take(i) + seq![left, r1] + a.skip(i + 1)
    } else {
        a
    };
    let j = if x > 0 {
        i + 1
    } else {
        i
    };
    if x > 0 {
        lemma_kept_split_back(a, i, left, r1, x, init, index);
        assert(s1[j] == r1);
        assert(left.visible().len() == x);
    } else {
        lemma_kept_same(a, init, index);
        assert(s1[j] == r1);
    }
    assert(forall|k: int| 0 <= k < s1.len() ==> (#[trigger] s1[k]).wf());
    assert(elems_prefix(s1, j) == index);
    assert(r1.bytes() =~= a[i].bytes().skip(x));
    let s2 = if y < len {
        s1.take(j) + seq![d0, right] + s1.skip(j + 1)
    } else {
        s1
    };
    if y < len {
        lemma_kept_split_back(s1, j, d0, right, y - x, init, index);
    } else {
        lemma_kept_same(s1, init, index);
    }
    assert(s2[j] == d0);
    assert(d0.bytes() =~= a[i].bytes().subrange(x, y));
    assert(forall|k: int| 0 <= k < s2.len() ==> (#[trigger] s2[k]).wf());
    assert(elems_prefix(s2, j) == index) by {
        assert(s2.take(j) =~= s1.take(j));
    }
    assert(fin =~= s2.update(j, ed)) by {
        if x > 0 {
            if y < len {
                assert(fin =~= a.take(i) + seq![left, ed, right] + a.skip(i + 1));
            } else {
                assert(fin =~= a.take(i) + seq![left, ed] + a.skip(i + 1));
            }
        } else {
            if y < len {
                assert(fin =~= a.take(i) + seq![ed, right] + a.skip(i + 1));
            } else {
                assert(fin =~= a.take(i) + seq![ed] + a.skip(i + 1));
            }
        }
    }
    lemma_kept_kill(s2, fin, j, init);
    assert(d0.visible().len() == y - x);
    lemma_kept_compose(fin, init, s2, init, s1, init, index, y - x, index, 0, index, y - x);
    lemma_kept_compose(fin, init, s1, init, a, init, index, y - x, index, 0, index, y - x);
}

} // verus!
