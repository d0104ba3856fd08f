//! Where an annotation's anchors sit among the elements, and which text
//! bytes the annotation is active on as a result.
use vstd::prelude::*;

use crate::AnchorType;
use crate::rich_text::{active_after, active_at, holds_position, pass_end, pass_start, lemma_prefix_len_mono, lemma_text_split_at, text_of_elems};
use crate::rich_tree::Elem;

verus! {

broadcast use vstd::seq_lib::group_seq_properties;

/// The number of visible text bytes before element `j`.
pub open spec fn elems_prefix(s: Seq<Elem>, j: int) -> int {
    text_of_elems(s.take(j)).len() as int
}

/// Annotation `x` is in the anchor set of `e` of the given kind: a start or
/// an end anchor, before or after the element.
pub open spec fn anchor_in(e: Elem, x: i32, is_start: bool, before: bool) -> bool {
    if is_start {
        if before {
            e.anchor_set.start_before@.contains(x)
        } else {
            e.anchor_set.start_after@.contains(x)
        }
    } else {
        if before {
            e.anchor_set.end_before@.contains(x)
        } else {
            e.anchor_set.end_after@.contains(x)
        }
    }
}

/// No element holds an anchor of annotation `x` of the given kind.
pub open spec fn anchor_none(s: Seq<Elem>, x: i32, is_start: bool, before: bool) -> bool {
    forall|j: int| 0 <= j < s.len() ==> !#[trigger] anchor_in(s[j], x, is_start, before)
}

/// The anchor of annotation `x` of the given kind sits on exactly the
/// element that holds text byte `q`; that element starts at `q` (a
/// before-anchor) or ends right after it (an after-anchor).
pub open spec fn anchor_on(s: Seq<Elem>, x: i32, is_start: bool, before: bool, q: int) -> bool {
    &&& 0 <= q < text_of_elems(s).len()
    &&& forall|j: int|
        0 <= j < s.len() ==> (#[trigger] anchor_in(s[j], x, is_start, before) <==> (
        !s[j].status.spec_is_dead() && elems_prefix(s, j) <= q < elems_prefix(s, j + 1)))
    &&& forall|j: int|
        0 <= j < s.len() && #[trigger] anchor_in(s[j], x, is_start, before) ==> if before {
            elems_prefix(s, j) == q
        } else {
            elems_prefix(s, j + 1) == q + 1
        }
}

/// The text bytes before element `j + 1`: those before `j` and `j`'s
/// visible bytes.
pub proof fn lemma_prefix_step(s: Seq<Elem>, j: int)
    requires
        0 <= j < s.len(),
    ensures
        elems_prefix(s, j + 1) == elems_prefix(s, j) + s[j].visible().len(),
{
    lemma_text_split_at(s, j);
}

/// An element holds a text byte exactly when it is visible and the byte
/// lies within its bytes.
pub proof fn lemma_holds_iff(s: Seq<Elem>, k: int, q: int)
    requires
        forall|i: int| 0 <= i < s.len() ==> (#[trigger] s[i]).wf(),
        0 <= k < s.len(),
        0 <= q,
    ensures
        holds_position(s, k, q) <==> (!s[k].status.spec_is_dead() && elems_prefix(s, k) <= q
            < elems_prefix(s, k + 1)),
{
    lemma_prefix_step(s, k);
    assert(s[k].wf());
    if !s[k].status.spec_is_dead() && elems_prefix(s, k) <= q < elems_prefix(s, k + 1) {
        assert forall|j: int| 0 <= j < k implies !((#[trigger] s[j]).visible().len() > 0 && q
            < text_of_elems(s.take(j + 1)).len()) by {
            lemma_prefix_len_mono(s, j + 1, k);
        }
    }
    if holds_position(s, k, q) {
        lemma_holds_prefix(s, k, q);
    }
}

/// A byte that no element before `k` reaches past lies at or after the
/// text before `k`.
proof fn lemma_holds_prefix(s: Seq<Elem>, k: int, q: int)
    requires
        0 <= k <= s.len(),
        0 <= q,
        forall|j: int|
            0 <= j < k ==> !((#[trigger] s[j]).visible().len() > 0 && q < text_of_elems(
                s.take(j + 1),
            ).len()),
    ensures
        elems_prefix(s, k) <= q,
    decreases k,
{
    if k > 0 {
        lemma_holds_prefix(s, k - 1, q);
        lemma_prefix_step(s, k - 1);
        assert(s[k - 1].visible().len() == 0 || q >= text_of_elems(s.take(k)).len());
    }
}

/// Replacing element `i` by an element with the same visible bytes keeps
/// the text before every element.
pub proof fn lemma_prefix_replace(a: Seq<Elem>, b: Seq<Elem>, i: int)
    requires
        0 <= i < a.len(),
        b == a.take(i) + seq![b[i]] + a.skip(i + 1),
        b[i].visible() == a[i].visible(),
    ensures
        b.len() == a.len(),
        forall|j: int| 0 <= j <= b.len() ==> #[trigger] elems_prefix(b, j) == elems_prefix(a, j),
{
    assert forall|j: int| 0 <= j <= b.len() implies #[trigger] elems_prefix(b, j) == elems_prefix(
        a,
        j,
    ) by {
        if j <= i {
            assert(b.take(j) =~= a.take(j));
        } else {
            let mid = a.subrange(i + 1, j);
            assert(b.take(j) =~= a.take(i) + seq![b[i]] + mid);
            assert(a.take(j) =~= a.take(i) + seq![a[i]] + mid);
            crate::rich_text::lemma_text_concat(a.take(i) + seq![b[i]], mid);
            crate::rich_text::lemma_text_concat(a.take(i), seq![b[i]]);
            crate::rich_text::lemma_text_concat(a.take(i) + seq![a[i]], mid);
            crate::rich_text::lemma_text_concat(a.take(i), seq![a[i]]);
            crate::rich_text::lemma_text_single(b[i]);
            crate::rich_text::lemma_text_single(a[i]);
        }
    }
}

/// Splitting element `i` into `b[i]` and `b[i + 1]`, which share its
/// visible bytes in order, shifts the later elements by one.
pub proof fn lemma_prefix_split(a: Seq<Elem>, b: Seq<Elem>, i: int)
    requires
        0 <= i < a.len(),
        b == a.take(i) + seq![b[i], b[i + 1]] + a.skip(i + 1),
        b[i].visible() + b[i + 1].visible() == a[i].visible(),
    ensures
        b.len() == a.len() + 1,
        forall|j: int| 0 <= j <= i ==> #[trigger] elems_prefix(b, j) == elems_prefix(a, j),
        elems_prefix(b, i + 1) == elems_prefix(a, i) + b[i].visible().len(),
        forall|j: int| i + 2 <= j <= b.len() ==> #[trigger] elems_prefix(b, j) == elems_prefix(a, j - 1),
{
    assert forall|j: int| 0 <= j <= i implies #[trigger] elems_prefix(b, j) == elems_prefix(a, j) by {
        assert(b.take(j) =~= a.take(j));
    }
    assert(b.take(i + 1) =~= a.take(i) + seq![b[i]]);
    crate::rich_text::lemma_text_concat(a.take(i), seq![b[i]]);
    crate::rich_text::lemma_text_single(b[i]);
    assert forall|j: int| i + 2 <= j <= b.len() implies #[trigger] elems_prefix(b, j) == elems_prefix(
        a,
        j - 1,
    ) by {
        let mid = a.subrange(i + 1, j - 1);
        assert(b.take(j) =~= a.take(i) + seq![b[i], b[i + 1]] + mid);
        assert(a.take(j - 1) =~= a.take(i) + seq![a[i]] + mid);
        crate::rich_text::lemma_text_concat(a.take(i) + seq![b[i], b[i + 1]], mid);
        crate::rich_text::lemma_text_concat(a.take(i), seq![b[i], b[i + 1]]);
        crate::rich_text::lemma_text_concat(a.take(i) + seq![a[i]], mid);
        crate::rich_text::lemma_text_concat(a.take(i), seq![a[i]]);
        crate::rich_text::lemma_text_two_three(b[i], b[i + 1], b[i + 1]);
        crate::rich_text::lemma_text_single(a[i]);
    }
}

/// Replacing element `i` by an element with the same visible bytes and
/// status keeps the other elements, every text prefix and the text length.
proof fn lemma_replace_facts(a: Seq<Elem>, b: Seq<Elem>, i: int)
    requires
        0 <= i < a.len(),
        b == a.take(i) + seq![b[i]] + a.skip(i + 1),
        b[i].visible() == a[i].visible(),
    ensures
        b.len() == a.len(),
        forall|j: int| 0 <= j <= b.len() ==> #[trigger] elems_prefix(b, j) == elems_prefix(a, j),
        forall|j: int| 0 <= j < b.len() && j != i ==> #[trigger] b[j] == a[j],
        text_of_elems(b).len() == text_of_elems(a).len(),
{
    lemma_prefix_replace(a, b, i);
    assert(b.take(b.len() as int) =~= b);
    assert(a.take(a.len() as int) =~= a);
    assert(elems_prefix(b, b.len() as int) == elems_prefix(a, a.len() as int));
    assert forall|j: int| 0 <= j < b.len() && j != i implies #[trigger] b[j] == a[j] by {
        if j < i {
            assert(b[j] == a.take(i)[j]);
        } else {
            assert(b[j] == a.skip(i + 1)[j - i - 1]);
        }
    }
}

/// One kind's placement survives the replacement of element `i` by one
/// holding the same anchors of that kind.
proof fn lemma_on_keep_replace(a: Seq<Elem>, b: Seq<Elem>, i: int, x: i32, st: bool, bf: bool, r: int)
    requires
        0 <= i < a.len(),
        b.len() == a.len(),
        forall|j: int| 0 <= j <= b.len() ==> #[trigger] elems_prefix(b, j) == elems_prefix(a, j),
        forall|j: int| 0 <= j < b.len() && j != i ==> #[trigger] b[j] == a[j],
        text_of_elems(b).len() == text_of_elems(a).len(),
        b[i].status == a[i].status,
        anchor_in(b[i], x, st, bf) == anchor_in(a[i], x, st, bf),
        anchor_on(a, x, st, bf, r),
    ensures
        anchor_on(b, x, st, bf, r),
{
    assert forall|j: int| 0 <= j < b.len() implies (#[trigger] anchor_in(b[j], x, st, bf) <==> (
    !b[j].status.spec_is_dead() && elems_prefix(b, j) <= r < elems_prefix(b, j + 1))) by {
        assert(anchor_in(a[j], x, st, bf) <==> (!a[j].status.spec_is_dead() && elems_prefix(a, j) <= r
            < elems_prefix(a, j + 1)));
        assert(elems_prefix(b, j) == elems_prefix(a, j));
        assert(elems_prefix(b, j + 1) == elems_prefix(a, j + 1));
    }
    assert forall|j: int| 0 <= j < b.len() && #[trigger] anchor_in(b[j], x, st, bf) implies if bf {
        elems_prefix(b, j) == r
    } else {
        elems_prefix(b, j + 1) == r + 1
    } by {
        assert(anchor_in(a[j], x, st, bf));
        assert(elems_prefix(b, j) == elems_prefix(a, j));
        assert(elems_prefix(b, j + 1) == elems_prefix(a, j + 1));
    }
}

/// The anchor added to visible element `i`, of a kind that no element held,
/// is placed on the byte `q` that the element starts with (before) or ends
/// with (after).
proof fn lemma_on_new_replace(a: Seq<Elem>, b: Seq<Elem>, i: int, x: i32, ns: bool, nb: bool, q: int)
    requires
        0 <= i < a.len(),
        b.len() == a.len(),
        forall|j: int| 0 <= j <= b.len() ==> #[trigger] elems_prefix(b, j) == elems_prefix(a, j),
        forall|j: int| 0 <= j < b.len() && j != i ==> #[trigger] b[j] == a[j],
        text_of_elems(b).len() == text_of_elems(a).len(),
        b[i].status == a[i].status,
        anchor_none(a, x, ns, nb),
        anchor_in(b[i], x, ns, nb),
        !a[i].status.spec_is_dead(),
        elems_prefix(a, i) <= q < elems_prefix(a, i + 1),
        if nb {
            q == elems_prefix(a, i)
        } else {
            q + 1 == elems_prefix(a, i + 1)
        },
    ensures
        anchor_on(b, x, ns, nb, q),
{
    assert forall|j: int| 0 <= j < b.len() implies (#[trigger] anchor_in(b[j], x, ns, nb) <==> (
    !b[j].status.spec_is_dead() && elems_prefix(b, j) <= q < elems_prefix(b, j + 1))) by {
        assert(elems_prefix(b, j) == elems_prefix(a, j));
        assert(elems_prefix(b, j + 1) == elems_prefix(a, j + 1));
        if j != i {
            assert(!anchor_in(a[j], x, ns, nb));
            if j < i {
                lemma_prefix_len_mono(a, j + 1, i);
            } else {
                lemma_prefix_len_mono(a, i + 1, j);
            }
        }
    }
    assert forall|j: int| 0 <= j < b.len() && #[trigger] anchor_in(b[j], x, ns, nb) implies if nb {
        elems_prefix(b, j) == q
    } else {
        elems_prefix(b, j + 1) == q + 1
    } by {
        if j != i {
            assert(!anchor_in(a[j], x, ns, nb));
        }
        assert(elems_prefix(b, j) == elems_prefix(a, j));
        assert(elems_prefix(b, j + 1) == elems_prefix(a, j + 1));
    }
    assert(a.take(a.len() as int) =~= a);
    lemma_prefix_len_mono(a, i + 1, a.len() as int);
}

/// Replacing element `i` by an element with the same visible bytes and
/// status, whose anchors of annotation `x` differ from its own at most in
/// the kind (`ns`, `nb`), keeps the placement of every other kind; an anchor
/// of that kind added to a visible element is placed on the byte `q` it
/// starts with (before) or ends with (after).
pub proof fn lemma_anchors_replace(a: Seq<Elem>, b: Seq<Elem>, i: int, x: i32, ns: bool, nb: bool, q: int)
    requires
        0 <= i < a.len(),
        b == a.take(i) + seq![b[i]] + a.skip(i + 1),
        b[i].visible() == a[i].visible(),
        b[i].status == a[i].status,
        forall|st: bool, bf: bool|
            !(st == ns && bf == nb) ==> #[trigger] anchor_in(b[i], x, st, bf) == anchor_in(a[i], x, st, bf),
    ensures
        forall|st: bool, bf: bool, r: int|
            #![trigger anchor_on(b, x, st, bf, r)]
            !(st == ns && bf == nb) && anchor_on(a, x, st, bf, r) ==> anchor_on(b, x, st, bf, r),
        forall|st: bool, bf: bool|
            #![trigger anchor_none(b, x, st, bf)]
            !(st == ns && bf == nb) && anchor_none(a, x, st, bf) ==> anchor_none(b, x, st, bf),
        anchor_none(a, x, ns, nb) && anchor_in(b[i], x, ns, nb) && !a[i].status.spec_is_dead()
            && elems_prefix(a, i) <= q < elems_prefix(a, i + 1) && (if nb {
            q == elems_prefix(a, i)
        } else {
            q + 1 == elems_prefix(a, i + 1)
        }) ==> anchor_on(b, x, ns, nb, q),
{
    lemma_replace_facts(a, b, i);
    assert forall|st: bool, bf: bool, r: int|
        #![trigger anchor_on(b, x, st, bf, r)]
        !(st == ns && bf == nb) && anchor_on(a, x, st, bf, r) implies anchor_on(b, x, st, bf, r) by {
        lemma_on_keep_replace(a, b, i, x, st, bf, r);
    }
    assert forall|st: bool, bf: bool|
        #![trigger anchor_none(b, x, st, bf)]
        !(st == ns && bf == nb) && anchor_none(a, x, st, bf) implies anchor_none(b, x, st, bf) by {
        assert forall|j: int| 0 <= j < b.len() implies !#[trigger] anchor_in(b[j], x, st, bf) by {
            assert(!anchor_in(a[j], x, st, bf));
        }
    }
    if anchor_none(a, x, ns, nb) && anchor_in(b[i], x, ns, nb) && !a[i].status.spec_is_dead()
        && elems_prefix(a, i) <= q < elems_prefix(a, i + 1) && (if nb {
        q == elems_prefix(a, i)
    } else {
        q + 1 == elems_prefix(a, i + 1)
    }) {
        lemma_on_new_replace(a, b, i, x, ns, nb, q);
    }
}

/// Splitting element `i` into `b[i]` and `b[i + 1]`, which share its visible
/// bytes in order and its status: the facts on the elements and prefixes.
proof fn lemma_split_facts(a: Seq<Elem>, b: Seq<Elem>, i: int)
    requires
        0 <= i < a.len(),
        b == a.take(i) + seq![b[i], b[i + 1]] + a.skip(i + 1),
        b[i].visible() + b[i + 1].visible() == a[i].visible(),
    ensures
        b.len() == a.len() + 1,
        forall|j: int| 0 <= j <= i ==> #[trigger] elems_prefix(b, j) == elems_prefix(a, j),
        elems_prefix(b, i + 1) == elems_prefix(a, i) + b[i].visible().len(),
        forall|j: int| i + 2 <= j <= b.len() ==> #[trigger] elems_prefix(b, j) == elems_prefix(a, j - 1),
        forall|j: int| 0 <= j < i ==> #[trigger] b[j] == a[j],
        forall|j: int| i + 2 <= j < b.len() ==> #[trigger] b[j] == a[j - 1],
        text_of_elems(b).len() == text_of_elems(a).len(),
        elems_prefix(a, i + 1) == elems_prefix(a, i) + a[i].visible().len(),
{
    lemma_prefix_split(a, b, i);
    lemma_prefix_step(a, i);
    assert(b.take(b.len() as int) =~= b);
    assert(a.take(a.len() as int) =~= a);
    assert(elems_prefix(b, b.len() as int) == elems_prefix(a, a.len() as int));
    assert forall|j: int| 0 <= j < i implies #[trigger] b[j] == a[j] by {
        assert(b[j] == a.take(i)[j]);
    }
    assert forall|j: int| i + 2 <= j < b.len() implies #[trigger] b[j] == a[j - 1] by {
        assert(b[j] == a.skip(i + 1)[j - i - 2]);
    }
}

/// One kind's placement survives the split of element `i`: its before
/// anchors stay on the left part, its after anchors go to the right part.
#[verifier::rlimit(30)]
proof fn lemma_on_keep_split(a: Seq<Elem>, b: Seq<Elem>, i: int, x: i32, st: bool, bf: bool, r: int)
    requires
        0 <= i < a.len(),
        b.len() == a.len() + 1,
        forall|j: int| 0 <= j <= i ==> #[trigger] elems_prefix(b, j) == elems_prefix(a, j),
        elems_prefix(b, i + 1) == elems_prefix(a, i) + b[i].visible().len(),
        forall|j: int| i + 2 <= j <= b.len() ==> #[trigger] elems_prefix(b, j) == elems_prefix(a, j - 1),
        forall|j: int| 0 <= j < i ==> #[trigger] b[j] == a[j],
        forall|j: int| i + 2 <= j < b.len() ==> #[trigger] b[j] == a[j - 1],
        text_of_elems(b).len() == text_of_elems(a).len(),
        elems_prefix(a, i + 1) == elems_prefix(a, i) + a[i].visible().len(),
        b[i].status == a[i].status,
        b[i + 1].status == a[i].status,
        !a[i].status.spec_is_dead() ==> 0 < b[i].visible().len() < a[i].visible().len(),
        a[i].status.spec_is_dead() ==> b[i].visible().len() == 0,
        if bf {
            anchor_in(b[i], x, st, bf) == anchor_in(a[i], x, st, bf) && !anchor_in(b[i + 1], x, st, bf)
        } else {
            !anchor_in(b[i], x, st, bf) && anchor_in(b[i + 1], x, st, bf) == anchor_in(a[i], x, st, bf)
        },
        anchor_on(a, x, st, bf, r),
    ensures
        anchor_on(b, x, st, bf, r),
{
    assert(anchor_in(a[i], x, st, bf) <==> (!a[i].status.spec_is_dead() && elems_prefix(a, i) <= r
        < elems_prefix(a, i + 1)));
    assert forall|j: int| 0 <= j < b.len() implies (#[trigger] anchor_in(b[j], x, st, bf) <==> (
    !b[j].status.spec_is_dead() && elems_prefix(b, j) <= r < elems_prefix(b, j + 1))) by {
        if j < i {
            assert(anchor_in(a[j], x, st, bf) <==> (!a[j].status.spec_is_dead() && elems_prefix(a, j)
                <= r < elems_prefix(a, j + 1)));
            assert(elems_prefix(b, j) == elems_prefix(a, j));
            assert(elems_prefix(b, j + 1) == elems_prefix(a, j + 1));
        } else if j == i {
            if anchor_in(a[i], x, st, bf) {
                assert(if bf {
                    elems_prefix(a, i) == r
                } else {
                    elems_prefix(a, i + 1) == r + 1
                });
            }
        } else if j == i + 1 {
            if anchor_in(a[i], x, st, bf) {
                assert(if bf {
                    elems_prefix(a, i) == r
                } else {
                    elems_prefix(a, i + 1) == r + 1
                });
            }
        } else {
            assert(anchor_in(a[j - 1], x, st, bf) <==> (!a[j - 1].status.spec_is_dead() && elems_prefix(
                a,
                j - 1,
            ) <= r < elems_prefix(a, j)));
            assert(elems_prefix(b, j) == elems_prefix(a, j - 1));
            assert(elems_prefix(b, j + 1) == elems_prefix(a, j));
        }
    }
    assert forall|j: int| 0 <= j < b.len() && #[trigger] anchor_in(b[j], x, st, bf) implies if bf {
        elems_prefix(b, j) == r
    } else {
        elems_prefix(b, j + 1) == r + 1
    } by {
        if j < i {
            assert(anchor_in(a[j], x, st, bf));
            assert(elems_prefix(b, j) == elems_prefix(a, j));
            assert(elems_prefix(b, j + 1) == elems_prefix(a, j + 1));
        } else if j == i || j == i + 1 {
            assert(anchor_in(a[i], x, st, bf));
        } else {
            assert(anchor_in(a[j - 1], x, st, bf));
            assert(elems_prefix(b, j) == elems_prefix(a, j - 1));
            assert(elems_prefix(b, j + 1) == elems_prefix(a, j));
        }
    }
}

/// The anchor added by the split of visible element `i`, of a kind that no
/// element held, is placed on the byte `q`: the first byte of the right part
/// (before) or the last byte of the left part (after).
#[verifier::rlimit(30)]
proof fn lemma_on_new_split(a: Seq<Elem>, b: Seq<Elem>, i: int, x: i32, ns: bool, nb: bool, q: int)
    requires
        0 <= i < a.len(),
        b.len() == a.len() + 1,
        forall|j: int| 0 <= j <= i ==> #[trigger] elems_prefix(b, j) == elems_prefix(a, j),
        elems_prefix(b, i + 1) == elems_prefix(a, i) + b[i].visible().len(),
        forall|j: int| i + 2 <= j <= b.len() ==> #[trigger] elems_prefix(b, j) == elems_prefix(a, j - 1),
        forall|j: int| 0 <= j < i ==> #[trigger] b[j] == a[j],
        forall|j: int| i + 2 <= j < b.len() ==> #[trigger] b[j] == a[j - 1],
        text_of_elems(b).len() == text_of_elems(a).len(),
        elems_prefix(a, i + 1) == elems_prefix(a, i) + a[i].visible().len(),
        b[i].status == a[i].status,
        b[i + 1].status == a[i].status,
        !a[i].status.spec_is_dead(),
        0 < b[i].visible().len() < a[i].visible().len(),
        anchor_none(a, x, ns, nb),
        if nb {
            !anchor_in(b[i], x, ns, nb) && anchor_in(b[i + 1], x, ns, nb) && q == elems_prefix(a, i)
                + b[i].visible().len()
        } else {
            anchor_in(b[i], x, ns, nb) && !anchor_in(b[i + 1], x, ns, nb) && q + 1 == elems_prefix(a, i)
                + b[i].visible().len()
        },
    ensures
        anchor_on(b, x, ns, nb, q),
{
    assert forall|j: int| 0 <= j < b.len() implies (#[trigger] anchor_in(b[j], x, ns, nb) <==> (
    !b[j].status.spec_is_dead() && elems_prefix(b, j) <= q < elems_prefix(b, j + 1))) by {
        if j < i {
            assert(!anchor_in(a[j], x, ns, nb));
            assert(elems_prefix(b, j + 1) == elems_prefix(a, j + 1));
            lemma_prefix_len_mono(a, j + 1, i);
        } else if j >= i + 2 {
            assert(!anchor_in(a[j - 1], x, ns, nb));
            assert(elems_prefix(b, j) == elems_prefix(a, j - 1));
            lemma_prefix_len_mono(a, i + 1, j - 1);
        }
    }
    assert forall|j: int| 0 <= j < b.len() && #[trigger] anchor_in(b[j], x, ns, nb) implies if nb {
        elems_prefix(b, j) == q
    } else {
        elems_prefix(b, j + 1) == q + 1
    } by {
        if j < i {
            assert(!anchor_in(a[j], x, ns, nb));
        } else if j >= i + 2 {
            assert(!anchor_in(a[j - 1], x, ns, nb));
        }
    }
    assert(a.take(a.len() as int) =~= a);
    lemma_prefix_len_mono(a, i + 1, a.len() as int);
}

/// Splitting element `i` into parts with the same status and visible bytes
/// in order, the left keeping its before anchors and the right its after
/// anchors, keeps the placement of every kind of annotation `x` but
/// (`ns`, `nb`); an anchor of that kind added on the other side of the cut
/// of a visible element is placed on the byte `q` next to the cut.
pub proof fn lemma_anchors_split(a: Seq<Elem>, b: Seq<Elem>, i: int, x: i32, ns: bool, nb: bool, q: int)
    requires
        0 <= i < a.len(),
        b == a.take(i) + seq![b[i], b[i + 1]] + a.skip(i + 1),
        b[i].visible() + b[i + 1].visible() == a[i].visible(),
        b[i].status == a[i].status,
        b[i + 1].status == a[i].status,
        !a[i].status.spec_is_dead() ==> 0 < b[i].visible().len() < a[i].visible().len(),
        forall|st: bool, bf: bool|
            !(st == ns && bf == nb) ==> (#[trigger] anchor_in(b[i], x, st, bf) == (bf && anchor_in(
                a[i],
                x,
                st,
                bf,
            ))),
        forall|st: bool, bf: bool|
            !(st == ns && bf == nb) ==> (#[trigger] anchor_in(b[i + 1], x, st, bf) == (!bf && anchor_in(
                a[i],
                x,
                st,
                bf,
            ))),
    ensures
        forall|st: bool, bf: bool, r: int|
            #![trigger anchor_on(b, x, st, bf, r)]
            !(st == ns && bf == nb) && anchor_on(a, x, st, bf, r) ==> anchor_on(b, x, st, bf, r),
        forall|st: bool, bf: bool|
            #![trigger anchor_none(b, x, st, bf)]
            !(st == ns && bf == nb) && anchor_none(a, x, st, bf) ==> anchor_none(b, x, st, bf),
        anchor_none(a, x, ns, nb) && !a[i].status.spec_is_dead() && (if nb {
            !anchor_in(b[i], x, ns, nb) && anchor_in(b[i + 1], x, ns, nb) && q == elems_prefix(a, i)
                + b[i].visible().len()
        } else {
            anchor_in(b[i], x, ns, nb) && !anchor_in(b[i + 1], x, ns, nb) && q + 1 == elems_prefix(a, i)
                + b[i].visible().len()
        }) ==> anchor_on(b, x, ns, nb, q),
{
    lemma_split_facts(a, b, i);
    if a[i].status.spec_is_dead() {
        assert(b[i].visible().len() == 0);
    }
    assert forall|st: bool, bf: bool, r: int|
        #![trigger anchor_on(b, x, st, bf, r)]
        !(st == ns && bf == nb) && anchor_on(a, x, st, bf, r) implies anchor_on(b, x, st, bf, r) by {
        assert(anchor_in(b[i], x, st, bf) == (bf && anchor_in(a[i], x, st, bf)));
        assert(anchor_in(b[i + 1], x, st, bf) == (!bf && anchor_in(a[i], x, st, bf)));
        lemma_on_keep_split(a, b, i, x, st, bf, r);
    }
    assert forall|st: bool, bf: bool|
        #![trigger anchor_none(b, x, st, bf)]
        !(st == ns && bf == nb) && anchor_none(a, x, st, bf) implies anchor_none(b, x, st, bf) by {
        assert forall|j: int| 0 <= j < b.len() implies !#[trigger] anchor_in(b[j], x, st, bf) by {
            if j < i {
                assert(!anchor_in(a[j], x, st, bf));
            } else if j <= i + 1 {
                assert(!anchor_in(a[i], x, st, bf));
                assert(anchor_in(b[i], x, st, bf) == (bf && anchor_in(a[i], x, st, bf)));
                assert(anchor_in(b[i + 1], x, st, bf) == (!bf && anchor_in(a[i], x, st, bf)));
            } else {
                assert(!anchor_in(a[j - 1], x, st, bf));
            }
        }
    }
    if anchor_none(a, x, ns, nb) && !a[i].status.spec_is_dead() && (if nb {
        !anchor_in(b[i], x, ns, nb) && anchor_in(b[i + 1], x, ns, nb) && q == elems_prefix(a, i)
            + b[i].visible().len()
    } else {
        anchor_in(b[i], x, ns, nb) && !anchor_in(b[i + 1], x, ns, nb) && q + 1 == elems_prefix(a, i)
            + b[i].visible().len()
    }) {
        lemma_on_new_split(a, b, i, x, ns, nb, q);
    }
}

/// Where annotation `x`'s anchors sit for the range `start..end` with the
/// given anchor types: the start anchor on the character at `start`
/// (before) or at `start - 1` (after; or, at the text's start, among the
/// initial styles `init`), the end anchor on the character at `end`
/// (before; none at the text's end) or at `end - 1` (after), and nowhere
/// else.
pub open spec fn anchored_range(
    s: Seq<Elem>,
    init: Set<i32>,
    x: i32,
    start: int,
    end: int,
    st: AnchorType,
    et: AnchorType,
) -> bool {
    &&& st == AnchorType::Before ==> anchor_on(s, x, true, true, start) && anchor_none(s, x, true, false)
        && !init.contains(x)
    &&& st == AnchorType::After && start > 0 ==> anchor_on(s, x, true, false, start - 1) && anchor_none(
        s,
        x,
        true,
        true,
    ) && !init.contains(x)
    &&& st == AnchorType::After && start == 0 ==> anchor_none(s, x, true, true) && anchor_none(
        s,
        x,
        true,
        false,
    ) && init.contains(x)
    &&& et == AnchorType::Before && end < text_of_elems(s).len() ==> anchor_on(s, x, false, true, end)
        && anchor_none(s, x, false, false)
    &&& et == AnchorType::Before && end >= text_of_elems(s).len() ==> anchor_none(s, x, false, true)
        && anchor_none(s, x, false, false)
    &&& et == AnchorType::After ==> anchor_on(s, x, false, false, end - 1) && anchor_none(
        s,
        x,
        false,
        true,
    )
}

/// Whether annotation `x`, anchored as [`anchored_range`] says, is active
/// once the first `j` elements are passed: its start is passed and its end
/// is not.
pub open spec fn passed_range(s: Seq<Elem>, j: int, start: int, end: int, st: AnchorType, et: AnchorType) -> bool {
    &&& if st == AnchorType::Before {
        elems_prefix(s, j) > start
    } else {
        elems_prefix(s, j) >= start
    }
    &&& !(if et == AnchorType::Before {
        elems_prefix(s, j) > end
    } else {
        elems_prefix(s, j) >= end
    })
}

/// Annotation `x` is active after the first `j` elements exactly when its
/// start is passed and its end is not.
proof fn lemma_active_after_range(
    s: Seq<Elem>,
    init: Set<i32>,
    x: i32,
    start: int,
    end: int,
    st: AnchorType,
    et: AnchorType,
    j: int,
)
    requires
        forall|i: int| 0 <= i < s.len() ==> (#[trigger] s[i]).wf(),
        0 <= start < end <= text_of_elems(s).len(),
        anchored_range(s, init, x, start, end, st, et),
        0 <= j <= s.len(),
    ensures
        active_after(s.take(j), init).contains(x) == passed_range(s, j, start, end, st, et),
    decreases j,
{
    if j == 0 {
        assert(s.take(0) =~= Seq::<Elem>::empty());
        assert(s.take(0) =~= Seq::<Elem>::empty());
        assert(elems_prefix(s, 0) == 0) by {
            assert(text_of_elems(Seq::<Elem>::empty()) =~= Seq::<u8>::empty());
        }
    } else {
        lemma_active_after_range(s, init, x, start, end, st, et, j - 1);
        let k = j - 1;
        assert(s.take(j).drop_last() =~= s.take(k));
        assert(s.take(j).last() == s[k]);
        let a0 = active_after(s.take(k), init);
        assert(active_after(s.take(j), init) == crate::rich_text::pass_end(
            s[k],
            crate::rich_text::pass_start(s[k], a0),
        ));
        lemma_prefix_step(s, k);
        assert(s[k].wf());
        lemma_range_step(s, x, start, end, st, et, k, a0.contains(x), init);
    }
}

/// One step of [`lemma_active_after_range`]: passing element `k`.
proof fn lemma_range_step(
    s: Seq<Elem>,
    x: i32,
    start: int,
    end: int,
    st: AnchorType,
    et: AnchorType,
    k: int,
    before: bool,
    init: Set<i32>,
)
    requires
        0 <= k < s.len(),
        s[k].wf(),
        0 <= start < end <= text_of_elems(s).len(),
        anchored_range(s, init, x, start, end, st, et),
        elems_prefix(s, k + 1) == elems_prefix(s, k) + s[k].visible().len(),
        before == passed_range(s, k, start, end, st, et),
    ensures
        ((((before || anchor_in(s[k], x, true, true)) && !anchor_in(s[k], x, false, true)) || anchor_in(
            s[k],
            x,
            true,
            false,
        )) && !anchor_in(s[k], x, false, false)) == passed_range(s, k + 1, start, end, st, et),
{
    let sb = anchor_in(s[k], x, true, true);
    let sa = anchor_in(s[k], x, true, false);
    let eb = anchor_in(s[k], x, false, true);
    let ea = anchor_in(s[k], x, false, false);
    let p0 = elems_prefix(s, k);
    let p1 = elems_prefix(s, k + 1);
    assert(!s[k].status.spec_is_dead() ==> p1 > p0);
    assert(s[k].status.spec_is_dead() ==> p1 == p0);
    lemma_prefix_len_mono(s, k + 1, s.len() as int);
    assert(s.take(s.len() as int) =~= s);
    assert(p1 <= text_of_elems(s).len());
    if st == AnchorType::Before {
        assert(sb <==> (!s[k].status.spec_is_dead() && p0 <= start < p1));
        assert(sb ==> p0 == start);
        assert(!sa);
    } else if start > 0 {
        assert(sa <==> (!s[k].status.spec_is_dead() && p0 <= start - 1 < p1));
        assert(sa ==> p1 == start);
        assert(!sb);
    } else {
        assert(!sa && !sb);
    }
    if et == AnchorType::Before {
        if end < text_of_elems(s).len() {
            assert(eb <==> (!s[k].status.spec_is_dead() && p0 <= end < p1));
            assert(eb ==> p0 == end);
        } else {
            assert(!eb);
        }
        assert(!ea);
    } else {
        assert(ea <==> (!s[k].status.spec_is_dead() && p0 <= end - 1 < p1));
        assert(ea ==> p1 == end);
        assert(!eb);
    }
}

/// An annotation anchored as [`anchored_range`] says is active exactly on
/// the text bytes `start..end`.
pub proof fn lemma_active_range(
    s: Seq<Elem>,
    init: Set<i32>,
    x: i32,
    start: int,
    end: int,
    st: AnchorType,
    et: AnchorType,
)
    requires
        forall|i: int| 0 <= i < s.len() ==> (#[trigger] s[i]).wf(),
        0 <= start < end <= text_of_elems(s).len(),
        anchored_range(s, init, x, start, end, st, et),
    ensures
        forall|k: int, p: int|
            #![trigger holds_position(s, k, p)]
            0 <= k < s.len() && 0 <= p && holds_position(s, k, p) ==> (active_at(s, init, k).contains(x)
                <==> start <= p < end),
{
    assert forall|k: int, p: int|
        #![trigger holds_position(s, k, p)]
        0 <= k < s.len() && 0 <= p && holds_position(s, k, p) implies (active_at(s, init, k).contains(x)
            <==> start <= p < end) by {
        lemma_holds_iff(s, k, p);
        lemma_active_after_range(s, init, x, start, end, st, et, k);
        lemma_prefix_step(s, k);
        lemma_range_at(s, x, start, end, st, et, k, p, init);
    }
}

/// Annotation `x` is active on the element `k` that holds byte `p` exactly
/// when `p` lies in `start..end`.
proof fn lemma_range_at(
    s: Seq<Elem>,
    x: i32,
    start: int,
    end: int,
    st: AnchorType,
    et: AnchorType,
    k: int,
    p: int,
    init: Set<i32>,
)
    requires
        0 <= k < s.len(),
        s[k].wf(),
        0 <= start < end <= text_of_elems(s).len(),
        anchored_range(s, init, x, start, end, st, et),
        elems_prefix(s, k + 1) == elems_prefix(s, k) + s[k].visible().len(),
        !s[k].status.spec_is_dead(),
        elems_prefix(s, k) <= p < elems_prefix(s, k + 1),
    ensures
        ((passed_range(s, k, start, end, st, et) || anchor_in(s[k], x, true, true)) && !anchor_in(
            s[k],
            x,
            false,
            true,
        )) == (start <= p < end),
{
    let sb = anchor_in(s[k], x, true, true);
    let sa = anchor_in(s[k], x, true, false);
    let eb = anchor_in(s[k], x, false, true);
    let ea = anchor_in(s[k], x, false, false);
    let p0 = elems_prefix(s, k);
    let p1 = elems_prefix(s, k + 1);
    lemma_prefix_len_mono(s, k + 1, s.len() as int);
    assert(s.take(s.len() as int) =~= s);
    assert(p1 <= text_of_elems(s).len());
    if st == AnchorType::Before {
        assert(sb <==> (p0 <= start < p1));
        assert(sb ==> p0 == start);
    } else if start > 0 {
        assert(sa <==> (p0 <= start - 1 < p1));
        assert(sa ==> p1 == start);
        assert(!sb);
    } else {
        assert(!sb);
    }
    if et == AnchorType::Before {
        if end < text_of_elems(s).len() {
            assert(eb <==> (p0 <= end < p1));
            assert(eb ==> p0 == end);
        } else {
            assert(!eb);
        }
    } else {
        assert(ea <==> (p0 <= end - 1 < p1));
        assert(ea ==> p1 == end);
        assert(!eb);
    }
}

/// `e1` and `e2` hold the same anchors of every annotation but `x`.
pub open spec fn sets_agree(e1: Elem, e2: Elem, x: i32) -> bool {
    &&& e1.anchor_set.start_before@.remove(x) == e2.anchor_set.start_before@.remove(x)
    &&& e1.anchor_set.end_before@.remove(x) == e2.anchor_set.end_before@.remove(x)
    &&& e1.anchor_set.start_after@.remove(x) == e2.anchor_set.start_after@.remove(x)
    &&& e1.anchor_set.end_after@.remove(x) == e2.anchor_set.end_after@.remove(x)
}

/// Every annotation but `x` is active on the same text bytes of the
/// elements `b` (from the initial styles `ib`) as of `a` (from `ia`).
pub open spec fn same_active_but(a: Seq<Elem>, ia: Set<i32>, b: Seq<Elem>, ib: Set<i32>, x: i32) -> bool {
    forall|ka: int, kb: int, p: int|
        #![trigger holds_position(a, ka, p), holds_position(b, kb, p)]
        0 <= p && ka < a.len() && kb < b.len() && holds_position(a, ka, p) && holds_position(b, kb, p)
            ==> active_at(b, ib, kb).remove(x) == active_at(a, ia, ka).remove(x)
}

/// Passing elements that agree but for `x`, from sets that agree but for
/// `x`, gives sets that agree but for `x`.
proof fn lemma_pass_agree(e1: Elem, e2: Elem, a1: Set<i32>, a2: Set<i32>, x: i32)
    requires
        sets_agree(e1, e2, x),
        a1.remove(x) == a2.remove(x),
    ensures
        pass_start(e1, a1).remove(x) == pass_start(e2, a2).remove(x),
        pass_end(e1, a1).remove(x) == pass_end(e2, a2).remove(x),
{
    let (sb1, eb1, sa1, ea1) = (
        e1.anchor_set.start_before@,
        e1.anchor_set.end_before@,
        e1.anchor_set.start_after@,
        e1.anchor_set.end_after@,
    );
    let (sb2, eb2, sa2, ea2) = (
        e2.anchor_set.start_before@,
        e2.anchor_set.end_before@,
        e2.anchor_set.start_after@,
        e2.anchor_set.end_after@,
    );
    assert forall|y: i32| y != x implies {
        &&& a1.contains(y) == a2.contains(y)
        &&& sb1.contains(y) == sb2.contains(y)
        &&& eb1.contains(y) == eb2.contains(y)
        &&& sa1.contains(y) == sa2.contains(y)
        &&& ea1.contains(y) == ea2.contains(y)
    } by {
        assert(a1.remove(x).contains(y) == a1.contains(y));
        assert(a2.remove(x).contains(y) == a2.contains(y));
        assert(sb1.remove(x).contains(y) == sb1.contains(y));
        assert(sb2.remove(x).contains(y) == sb2.contains(y));
        assert(eb1.remove(x).contains(y) == eb1.contains(y));
        assert(eb2.remove(x).contains(y) == eb2.contains(y));
        assert(sa1.remove(x).contains(y) == sa1.contains(y));
        assert(sa2.remove(x).contains(y) == sa2.contains(y));
        assert(ea1.remove(x).contains(y) == ea1.contains(y));
        assert(ea2.remove(x).contains(y) == ea2.contains(y));
    }
    assert(pass_start(e1, a1) == a1.union(sb1).difference(eb1));
    assert(pass_start(e2, a2) == a2.union(sb2).difference(eb2));
    assert(pass_end(e1, a1) == a1.union(sa1).difference(ea1));
    assert(pass_end(e2, a2) == a2.union(sa2).difference(ea2));
    assert(pass_start(e1, a1).remove(x) =~= pass_start(e2, a2).remove(x));
    assert(pass_end(e1, a1).remove(x) =~= pass_end(e2, a2).remove(x));
}

/// Sets that agree but for `x`, changed by sets that agree but for `x`,
/// agree but for `x`.
proof fn lemma_change_agree(
    a1: Set<i32>,
    s1: Set<i32>,
    e1: Set<i32>,
    a2: Set<i32>,
    s2: Set<i32>,
    e2: Set<i32>,
    x: i32,
)
    requires
        a1.remove(x) == a2.remove(x),
        s1.remove(x) == s2.remove(x),
        e1.remove(x) == e2.remove(x),
    ensures
        a1.union(s1).difference(e1).remove(x) == a2.union(s2).difference(e2).remove(x),
{
    assert forall|y: i32| y != x implies {
        &&& a1.contains(y) == a2.contains(y)
        &&& s1.contains(y) == s2.contains(y)
        &&& e1.contains(y) == e2.contains(y)
    } by {
        assert(a1.remove(x).contains(y) == a1.contains(y));
        assert(a2.remove(x).contains(y) == a2.contains(y));
        assert(s1.remove(x).contains(y) == s1.contains(y));
        assert(s2.remove(x).contains(y) == s2.contains(y));
        assert(e1.remove(x).contains(y) == e1.contains(y));
        assert(e2.remove(x).contains(y) == e2.contains(y));
    }
    assert(a1.union(s1).difference(e1).remove(x) =~= a2.union(s2).difference(e2).remove(x));
}

/// Passing one more element.
proof fn lemma_after_step(s: Seq<Elem>, init: Set<i32>, j: int)
    requires
        0 <= j < s.len(),
    ensures
        active_after(s.take(j + 1), init) == pass_end(s[j], pass_start(s[j], active_after(s.take(j), init))),
{
    assert(s.take(j + 1).drop_last() =~= s.take(j));
    assert(s.take(j + 1).last() == s[j]);
}

/// Runs of `n` elements that agree but for `x`, passed from sets that agree
/// but for `x`, keep the sets agreeing.
proof fn lemma_after_agree(a: Seq<Elem>, ia: Set<i32>, b: Seq<Elem>, ib: Set<i32>, x: i32, da: int, db: int, n: int)
    requires
        0 <= n,
        0 <= da,
        da + n <= a.len(),
        0 <= db,
        db + n <= b.len(),
        forall|t: int| 0 <= t < n ==> #[trigger] sets_agree(a[da + t], b[db + t], x),
        active_after(a.take(da), ia).remove(x) == active_after(b.take(db), ib).remove(x),
    ensures
        active_after(a.take(da + n), ia).remove(x) == active_after(b.take(db + n), ib).remove(x),
    decreases n,
{
    if n > 0 {
        lemma_after_agree(a, ia, b, ib, x, da, db, n - 1);
        lemma_after_step(a, ia, da + n - 1);
        lemma_after_step(b, ib, db + n - 1);
        assert(sets_agree(a[da + (n - 1)], b[db + (n - 1)], x));
        lemma_pass_agree(
            a[da + n - 1],
            b[db + n - 1],
            active_after(a.take(da + n - 1), ia),
            active_after(b.take(db + n - 1), ib),
            x,
        );
        lemma_pass_agree(
            a[da + n - 1],
            b[db + n - 1],
            pass_start(a[da + n - 1], active_after(a.take(da + n - 1), ia)),
            pass_start(b[db + n - 1], active_after(b.take(db + n - 1), ib)),
            x,
        );
    }
}

/// At most one element holds a text byte.
pub proof fn lemma_holds_unique(s: Seq<Elem>, k1: int, k2: int, p: int)
    requires
        holds_position(s, k1, p),
        holds_position(s, k2, p),
    ensures
        k1 == k2,
{
    if k1 < k2 {
        assert(!((s[k1]).visible().len() > 0 && p < text_of_elems(s.take(k1 + 1)).len()));
    } else if k2 < k1 {
        assert(!((s[k2]).visible().len() > 0 && p < text_of_elems(s.take(k2 + 1)).len()));
    }
}

/// Some element holds each byte of the text.
pub proof fn lemma_holder_exists(s: Seq<Elem>, p: int) -> (k: int)
    requires
        forall|i: int| 0 <= i < s.len() ==> (#[trigger] s[i]).wf(),
        0 <= p < text_of_elems(s).len(),
    ensures
        0 <= k < s.len(),
        holds_position(s, k, p),
{
    assert(s.take(s.len() as int) =~= s);
    let k = lemma_first_past(s, p, s.len() as int);
    lemma_holds_iff(s, k, p);
    k
}

/// The first element whose visible text reaches past byte `p`, among the
/// first `n`.
proof fn lemma_first_past(s: Seq<Elem>, p: int, n: int) -> (k: int)
    requires
        forall|i: int| 0 <= i < s.len() ==> (#[trigger] s[i]).wf(),
        0 <= p < elems_prefix(s, n),
        0 <= n <= s.len(),
    ensures
        0 <= k < n,
        elems_prefix(s, k) <= p < elems_prefix(s, k + 1),
        !s[k].status.spec_is_dead(),
    decreases n,
{
    if n == 0 {
        assert(s.take(0) =~= Seq::<Elem>::empty());
        assert(false);
        0
    } else {
        lemma_prefix_step(s, n - 1);
        if p < elems_prefix(s, n - 1) {
            lemma_first_past(s, p, n - 1)
        } else {
            assert(s[n - 1].wf());
            n - 1
        }
    }
}

/// The sets after passing no element are the initial ones.
proof fn lemma_after_none(a: Seq<Elem>, init: Set<i32>)
    ensures
        active_after(a.take(0), init) == init,
{
    assert(a.take(0) =~= Seq::<Elem>::empty());
}

/// Replacing element `i` by one with the same visible bytes and status,
/// holding the same anchors but for `x`, keeps every other annotation
/// active on the same bytes.
pub proof fn lemma_same_active_replace(a: Seq<Elem>, b: Seq<Elem>, i: int, x: i32, init: Set<i32>)
    requires
        forall|j: int| 0 <= j < a.len() ==> (#[trigger] a[j]).wf(),
        forall|j: int| 0 <= j < b.len() ==> (#[trigger] b[j]).wf(),
        0 <= i < a.len(),
        b == a.take(i) + seq![b[i]] + a.skip(i + 1),
        b[i].visible() == a[i].visible(),
        b[i].status == a[i].status,
        sets_agree(a[i], b[i], x),
    ensures
        same_active_but(a, init, b, init, x),
{
    lemma_replace_facts(a, b, i);
    lemma_after_none(a, init);
    lemma_after_none(b, init);
    assert forall|t: int| 0 <= t < a.len() implies #[trigger] sets_agree(a[0 + t], b[0 + t], x) by {
        if t != i {
            assert(b[t] == a[t]);
        }
    }
    assert forall|ka: int, kb: int, p: int|
        #![trigger holds_position(a, ka, p), holds_position(b, kb, p)]
        0 <= p && ka < a.len() && kb < b.len() && holds_position(a, ka, p) && holds_position(b, kb, p)
            implies active_at(b, init, kb).remove(x) == active_at(a, init, ka).remove(x) by {
        lemma_holds_iff(a, kb, p);
        lemma_holds_iff(b, kb, p);
        if kb != i {
            assert(b[kb] == a[kb]);
        }
        lemma_holds_unique(a, ka, kb, p);
        lemma_after_agree(a, init, b, init, x, 0, 0, kb);
        assert(sets_agree(a[0 + kb], b[0 + kb], x));
        lemma_pass_agree(a[kb], b[kb], active_after(a.take(kb), init), active_after(b.take(kb), init), x);
    }
}

/// Splitting element `i` into parts with its status and visible bytes in
/// order, the left holding its before anchors and the right its after
/// anchors (but for `x`), keeps every other annotation active on the same
/// bytes.
#[verifier::rlimit(40)]
pub proof fn lemma_same_active_split(a: Seq<Elem>, b: Seq<Elem>, i: int, x: i32, init: Set<i32>)
    requires
        forall|j: int| 0 <= j < a.len() ==> (#[trigger] a[j]).wf(),
        forall|j: int| 0 <= j < b.len() ==> (#[trigger] b[j]).wf(),
        0 <= i < a.len(),
        b == a.take(i) + seq![b[i], b[i + 1]] + a.skip(i + 1),
        b[i].visible() + b[i + 1].visible() == a[i].visible(),
        b[i].status == a[i].status,
        b[i + 1].status == a[i].status,
        b[i].anchor_set.start_before@.remove(x) == a[i].anchor_set.start_before@.remove(x),
        b[i].anchor_set.end_before@.remove(x) == a[i].anchor_set.end_before@.remove(x),
        b[i].anchor_set.start_after@.remove(x) == Set::<i32>::empty(),
        b[i].anchor_set.end_after@.remove(x) == Set::<i32>::empty(),
        b[i + 1].anchor_set.start_before@.remove(x) == Set::<i32>::empty(),
        b[i + 1].anchor_set.end_before@.remove(x) == Set::<i32>::empty(),
        b[i + 1].anchor_set.start_after@.remove(x) == a[i].anchor_set.start_after@.remove(x),
        b[i + 1].anchor_set.end_after@.remove(x) == a[i].anchor_set.end_after@.remove(x),
    ensures
        same_active_but(a, init, b, init, x),
{
    lemma_split_facts(a, b, i);
    lemma_after_none(a, init);
    lemma_after_none(b, init);
    let e = a[i];
    let f = b[i];
    let g = b[i + 1];
    assert forall|t: int| 0 <= t < i implies #[trigger] sets_agree(a[0 + t], b[0 + t], x) by {
        assert(b[t] == a[t]);
    }
    lemma_after_agree(a, init, b, init, x, 0, 0, i);
    let aa = active_after(a.take(i), init);
    let ab = active_after(b.take(i), init);
    let m = pass_start(e, aa);
    lemma_after_step(a, init, i);
    lemma_after_step(b, init, i);
    lemma_after_step(b, init, i + 1);
    let b1 = active_after(b.take(i + 1), init);
    let b2 = active_after(b.take(i + 2), init);
    let emp = Set::<i32>::empty();
    assert(emp.remove(x) =~= emp);
    lemma_change_agree(
        ab,
        f.anchor_set.start_before@,
        f.anchor_set.end_before@,
        aa,
        e.anchor_set.start_before@,
        e.anchor_set.end_before@,
        x,
    );
    assert(pass_start(f, ab).remove(x) == m.remove(x));
    lemma_change_agree(
        pass_start(f, ab),
        f.anchor_set.start_after@,
        f.anchor_set.end_after@,
        m,
        emp,
        emp,
        x,
    );
    assert(m.union(emp).difference(emp) =~= m);
    assert(b1.remove(x) == m.remove(x));
    lemma_change_agree(
        b1,
        g.anchor_set.start_before@,
        g.anchor_set.end_before@,
        m,
        emp,
        emp,
        x,
    );
    assert(pass_start(g, b1).remove(x) == m.remove(x));
    lemma_change_agree(
        pass_start(g, b1),
        g.anchor_set.start_after@,
        g.anchor_set.end_after@,
        m,
        e.anchor_set.start_after@,
        e.anchor_set.end_after@,
        x,
    );
    assert(b2.remove(x) == active_after(a.take(i + 1), init).remove(x));
    assert forall|t: int| 0 <= t < a.len() - (i + 1) implies #[trigger] sets_agree(a[i + 1 + t], b[i + 2 + t], x) by {
        assert(b[i + 2 + t] == a[i + 2 + t - 1]);
    }
    assert forall|ka: int, kb: int, p: int|
        #![trigger holds_position(a, ka, p), holds_position(b, kb, p)]
        0 <= p && ka < a.len() && kb < b.len() && holds_position(a, ka, p) && holds_position(b, kb, p)
            implies active_at(b, init, kb).remove(x) == active_at(a, init, ka).remove(x) by {
        lemma_holds_iff(b, kb, p);
        lemma_prefix_step(b, kb);
        if kb < i {
            assert(b[kb] == a[kb]);
            lemma_holds_iff(a, kb, p);
            lemma_holds_unique(a, ka, kb, p);
            lemma_after_agree(a, init, b, init, x, 0, 0, kb);
            assert(sets_agree(a[0 + kb], b[0 + kb], x));
            lemma_pass_agree(a[kb], b[kb], active_after(a.take(kb), init), active_after(b.take(kb), init), x);
        } else if kb == i || kb == i + 1 {
            lemma_holds_iff(a, i, p);
            lemma_holds_unique(a, ka, i, p);
        } else {
            assert(b[kb] == a[kb - 1]);
            lemma_holds_iff(a, kb - 1, p);
            lemma_holds_unique(a, ka, kb - 1, p);
            lemma_after_agree(a, init, b, init, x, i + 1, i + 2, kb - i - 2);
            assert(sets_agree(a[kb - 1], b[kb], x)) by {
                assert(sets_agree(a[i + 1 + (kb - i - 2)], b[i + 2 + (kb - i - 2)], x));
            }
            lemma_pass_agree(
                a[kb - 1],
                b[kb],
                active_after(a.take(kb - 1), init),
                active_after(b.take(kb), init),
                x,
            );
        }
    }
}

/// Adding `x` to the initial styles keeps every other annotation active on
/// the same bytes.
pub proof fn lemma_same_active_init(s: Seq<Elem>, init: Set<i32>, x: i32)
    ensures
        same_active_but(s, init, s, init.insert(x), x),
{
    assert(init.remove(x) =~= init.insert(x).remove(x));
    lemma_after_none(s, init);
    lemma_after_none(s, init.insert(x));
    assert forall|t: int| 0 <= t < s.len() implies #[trigger] sets_agree(s[0 + t], s[0 + t], x) by {}
    assert forall|ka: int, kb: int, p: int|
        #![trigger holds_position(s, ka, p), holds_position(s, kb, p)]
        0 <= p && ka < s.len() && kb < s.len() && holds_position(s, ka, p) && holds_position(s, kb, p)
            implies active_at(s, init.insert(x), kb).remove(x) == active_at(s, init, ka).remove(x) by {
        lemma_holds_unique(s, ka, kb, p);
        lemma_after_agree(s, init, s, init.insert(x), x, 0, 0, kb);
        assert(sets_agree(s[0 + kb], s[0 + kb], x));
        lemma_pass_agree(s[kb], s[kb], active_after(s.take(kb), init), active_after(s.take(kb), init.insert(x)), x);
    }
}

/// Keeping every other annotation active on the same bytes composes, for
/// elements with texts of the same length.
pub proof fn lemma_same_active_trans(
    a: Seq<Elem>,
    ia: Set<i32>,
    b: Seq<Elem>,
    ib: Set<i32>,
    c: Seq<Elem>,
    ic: Set<i32>,
    x: i32,
)
    requires
        forall|j: int| 0 <= j < b.len() ==> (#[trigger] b[j]).wf(),
        text_of_elems(a).len() == text_of_elems(b).len(),
        same_active_but(a, ia, b, ib, x),
        same_active_but(b, ib, c, ic, x),
    ensures
        same_active_but(a, ia, c, ic, x),
{
    assert forall|ka: int, kc: int, p: int|
        #![trigger holds_position(a, ka, p), holds_position(c, kc, p)]
        0 <= p && ka < a.len() && kc < c.len() && holds_position(a, ka, p) && holds_position(c, kc, p)
            implies active_at(c, ic, kc).remove(x) == active_at(a, ia, ka).remove(x) by {
        lemma_holds_iff_text(a, ka, p);
        let kb = lemma_holder_exists(b, p);
    }
}

/// A byte held by an element lies within the text.
proof fn lemma_holds_iff_text(s: Seq<Elem>, k: int, p: int)
    requires
        0 <= k < s.len(),
        holds_position(s, k, p),
    ensures
        p < text_of_elems(s).len(),
{
    lemma_prefix_len_mono(s, k + 1, s.len() as int);
    assert(s.take(s.len() as int) =~= s);
}

/// An annotation with no anchor and not among the initial styles is active
/// nowhere.
proof fn lemma_never_active_after(s: Seq<Elem>, init: Set<i32>, x: i32, j: int)
    requires
        forall|st: bool, bf: bool| #[trigger] anchor_none(s, x, st, bf),
        !init.contains(x),
        0 <= j <= s.len(),
    ensures
        !active_after(s.take(j), init).contains(x),
    decreases j,
{
    if j == 0 {
        lemma_after_none(s, init);
    } else {
        lemma_never_active_after(s, init, x, j - 1);
        lemma_after_step(s, init, j - 1);
        assert(anchor_none(s, x, true, true));
        assert(anchor_none(s, x, true, false));
        assert(!anchor_in(s[j - 1], x, true, true));
        assert(!anchor_in(s[j - 1], x, true, false));
    }
}

/// An annotation with no anchor and not among the initial styles is active
/// on no element.
pub proof fn lemma_never_active(s: Seq<Elem>, init: Set<i32>, x: i32)
    requires
        forall|st: bool, bf: bool| #[trigger] anchor_none(s, x, st, bf),
        !init.contains(x),
    ensures
        forall|k: int| 0 <= k < s.len() ==> !(#[trigger] active_at(s, init, k)).contains(x),
{
    assert forall|k: int| 0 <= k < s.len() implies !(#[trigger] active_at(s, init, k)).contains(x) by {
        lemma_never_active_after(s, init, x, k);
        assert(anchor_none(s, x, true, true));
        assert(!anchor_in(s[k], x, true, true));
    }
}

/// When every annotation but `x` stays active on the same bytes, `x` was
/// active nowhere and is now active on exactly the bytes `start..end`, the
/// active annotations on each byte are the old ones, plus `x` inside the
/// range.
pub proof fn lemma_active_sets(
    a: Seq<Elem>,
    ia: Set<i32>,
    b: Seq<Elem>,
    ib: Set<i32>,
    x: i32,
    start: int,
    end: int,
)
    requires
        same_active_but(a, ia, b, ib, x),
        forall|k: int| 0 <= k < a.len() ==> !(#[trigger] active_at(a, ia, k)).contains(x),
        forall|k: int, p: int|
            #![trigger holds_position(b, k, p)]
            0 <= k < b.len() && 0 <= p && holds_position(b, k, p) ==> (active_at(b, ib, k).contains(x)
                <==> start <= p < end),
    ensures
        forall|ka: int, kb: int, p: int|
            #![trigger holds_position(a, ka, p), holds_position(b, kb, p)]
            0 <= p && ka < a.len() && kb < b.len() && holds_position(a, ka, p) && holds_position(b, kb, p)
                ==> active_at(b, ib, kb) == if start <= p < end {
                active_at(a, ia, ka).insert(x)
            } else {
                active_at(a, ia, ka)
            },
{
    assert forall|ka: int, kb: int, p: int|
        #![trigger holds_position(a, ka, p), holds_position(b, kb, p)]
        0 <= p && ka < a.len() && kb < b.len() && holds_position(a, ka, p) && holds_position(b, kb, p)
            implies active_at(b, ib, kb) == if start <= p < end {
            active_at(a, ia, ka).insert(x)
        } else {
            active_at(a, ia, ka)
        } by {
        let sa = active_at(a, ia, ka);
        let sb = active_at(b, ib, kb);
        assert(sb.remove(x) == sa.remove(x));
        assert(!sa.contains(x));
        assert(sb.contains(x) <==> start <= p < end);
        assert forall|y: i32| y != x implies sb.contains(y) == sa.contains(y) by {
            assert(sb.remove(x).contains(y) == sb.contains(y));
            assert(sa.remove(x).contains(y) == sa.contains(y));
        }
        if start <= p < end {
            assert(sb =~= sa.insert(x));
        } else {
            assert(sb =~= sa);
        }
    }
}

} // verus!
