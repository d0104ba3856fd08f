//! Where a character named by an atom id sits in the text, and why cutting
//! an element in two moves no character.
use vstd::prelude::*;
use vstd::utf8::*;

use crate::anchors::elems_prefix;
use crate::rich_text::{anchor_char_at, anchor_cut, lemma_skip_boundary, lemma_text_concat, text_of_elems};
use crate::rich_tree::{id_at, lemma_char_boundary_prefix, lemma_char_boundary_split, Elem};
use crate::{AnchorType, OpID};

verus! {

broadcast use vstd::seq_lib::group_seq_properties;

/// `b` is `a` with element `i` kept whole, or cut in two at a character
/// boundary, keeping its bytes, first id and status.
#[verifier::opaque]
pub open spec fn recut(a: Seq<Elem>, b: Seq<Elem>, i: int) -> bool {
    &&& 0 <= i < a.len()
    &&& i < b.len()
    &&& b[i].id == a[i].id
    &&& b[i].status == a[i].status
    &&& {
        ||| b == a.take(i) + seq![b[i]] + a.skip(i + 1) && b[i].bytes() == a[i].bytes()
        ||| {
            &&& i + 1 < b.len()
            &&& b == a.take(i) + seq![b[i], b[i + 1]] + a.skip(i + 1)
            &&& a[i].bytes() == b[i].bytes() + b[i + 1].bytes()
            &&& 0 < b[i].bytes().len()
            &&& b[i + 1].id == id_at(a[i].id, b[i].bytes().len() as int)
            &&& b[i + 1].status == a[i].status
            &&& is_char_boundary(a[i].bytes(), b[i].bytes().len() as int)
        }
    }
}

/// The character that an anchor on atom `id` names is alive, at text byte
/// `q`.
pub open spec fn char_placed(s: Seq<Elem>, id: OpID, type_: AnchorType, q: int) -> bool {
    exists|k: int|
        #[trigger] anchor_char_at(s, k, id, type_) && !s[k].status.spec_is_dead() && elems_prefix(s, k)
            + id.counter - s[k].id.counter == q
}

/// The elements of `b` that stand for element `i` of `a` after a recut.
spec fn parts(a: Seq<Elem>, b: Seq<Elem>, i: int) -> Seq<Elem> {
    b.subrange(i, i + 1 + (b.len() - a.len()))
}

/// The text of one element.
proof fn lemma_text_one(x: Elem)
    ensures
        text_of_elems(seq![x]) == x.visible(),
{
    assert(seq![x].drop_last() =~= Seq::<Elem>::empty());
    assert(text_of_elems(Seq::<Elem>::empty()) + x.visible() =~= x.visible());
}

/// The parts of a recut element hold its visible text, and no atom that it
/// does not hold.
proof fn lemma_parts(a: Seq<Elem>, b: Seq<Elem>, i: int, id: OpID)
    requires
        recut(a, b, i),
        a[i].wf(),
    ensures
        b.len() == a.len() || b.len() == a.len() + 1,
        text_of_elems(parts(a, b, i)) == a[i].visible(),
        forall|j: int| i <= j < i + 1 + (b.len() - a.len()) && (#[trigger] b[j]).spec_contains_id(id) ==> a[i].spec_contains_id(id),
        forall|j: int| 0 <= j < i ==> #[trigger] b[j] == a[j],
        forall|j: int| i + 1 <= j < a.len() ==> #[trigger] a[j] == b[j + (b.len() - a.len())],
{
    reveal(recut);
    let e = a[i];
    let pc = parts(a, b, i);
    if b.len() == a.len() + 1 {
        assert(pc =~= seq![b[i], b[i + 1]]);
        assert(pc.drop_last() =~= seq![b[i]]);
        lemma_text_one(b[i]);
        assert(e.bytes().len() == b[i].bytes().len() + b[i + 1].bytes().len());
        assert(b[i + 1].id.counter == e.id.counter + b[i].bytes().len());
        if e.status.spec_is_dead() {
            assert(text_of_elems(pc) =~= e.visible());
        } else {
            assert(text_of_elems(pc) =~= e.visible());
        }
    } else {
        assert(b.len() == a.len());
        assert(pc =~= seq![b[i]]);
        lemma_text_one(b[i]);
    }
}

/// A character before a recut element stays where it was.
proof fn lemma_placed_before(a: Seq<Elem>, b: Seq<Elem>, i: int, id: OpID, t: AnchorType, k: int)
    requires
        recut(a, b, i),
        a[i].wf(),
        0 <= k < i,
        anchor_char_at(a, k, id, t),
    ensures
        anchor_char_at(b, k, id, t),
        b[k] == a[k],
        elems_prefix(b, k) == elems_prefix(a, k),
{
    reveal(recut);
    lemma_parts(a, b, i, id);
    assert(b.take(k) =~= a.take(k));
}

/// A character after a recut element moves by the number of new parts, and
/// keeps its text position.
proof fn lemma_placed_after(a: Seq<Elem>, b: Seq<Elem>, i: int, id: OpID, t: AnchorType, k: int)
    requires
        recut(a, b, i),
        a[i].wf(),
        i < k < a.len(),
        anchor_char_at(a, k, id, t),
    ensures
        anchor_char_at(b, k + (b.len() - a.len()), id, t),
        b[k + (b.len() - a.len())] == a[k],
        elems_prefix(b, k + (b.len() - a.len())) == elems_prefix(a, k),
{
    reveal(recut);
    lemma_parts(a, b, i, id);
    let d = b.len() - a.len();
    let k2 = k + d;
    let pc = parts(a, b, i);
    assert(b.take(k2) =~= a.take(i) + pc + a.subrange(i + 1, k));
    assert(a.take(k) =~= a.take(i) + seq![a[i]] + a.subrange(i + 1, k));
    lemma_text_concat(a.take(i) + pc, a.subrange(i + 1, k));
    lemma_text_concat(a.take(i), pc);
    lemma_text_concat(a.take(i) + seq![a[i]], a.subrange(i + 1, k));
    lemma_text_concat(a.take(i), seq![a[i]]);
    lemma_text_one(a[i]);
    assert(!a[i].spec_contains_id(id));
    assert forall|k3: int| 0 <= k3 < k2 implies !(#[trigger] b[k3]).spec_contains_id(id) by {
        if k3 < i {
            assert(b[k3] == a[k3]);
        } else if k3 >= i + 1 + d {
            assert(b[k3] == a[k3 - d]);
        }
    }
}

/// A character inside a recut element is found in the part that holds it,
/// at the same text position.
proof fn lemma_placed_at(a: Seq<Elem>, b: Seq<Elem>, i: int, id: OpID, t: AnchorType)
    requires
        recut(a, b, i),
        a[i].wf(),
        !a[i].status.spec_is_dead(),
        anchor_char_at(a, i, id, t),
    ensures
        exists|k2: int|
            #[trigger] anchor_char_at(b, k2, id, t) && b[k2].status == a[i].status && elems_prefix(b, k2)
                + id.counter - b[k2].id.counter == elems_prefix(a, i) + id.counter - a[i].id.counter,
{
    reveal(recut);
    lemma_parts(a, b, i, id);
    let e = a[i];
    let off = id.counter - e.id.counter;
    let cut = anchor_cut(e.bytes().len() as int, off, t);
    assert(b.take(i) =~= a.take(i));
    if b.len() == a.len() {
        assert(anchor_char_at(b, i, id, t));
    } else {
        let m = b[i].bytes().len() as int;
        assert(b[i].bytes() =~= e.bytes().take(m));
        assert(b[i + 1].bytes() =~= e.bytes().skip(m));
        lemma_char_boundary_split(e.bytes(), m);
        if off < m {
            let cb = anchor_cut(m, off, t);
            if t == AnchorType::Before && off == 0 {
                is_char_boundary_start_end_of_seq(b[i].bytes());
            } else if t == AnchorType::After && off + 1 == m {
                is_char_boundary_start_end_of_seq(b[i].bytes());
            } else {
                lemma_char_boundary_prefix(e.bytes(), m, cb);
            }
            assert(anchor_char_at(b, i, id, t));
        } else {
            let off2 = off - m;
            assert(b[i + 1].id.counter == e.id.counter + m);
            if t == AnchorType::Before && off2 == 0 {
                is_char_boundary_start_end_of_seq(b[i + 1].bytes());
            } else {
                is_char_boundary_start_end_of_seq(e.bytes());
                lemma_skip_boundary(e.bytes(), m, cut);
            }
            assert(b.take(i + 1) =~= a.take(i) + seq![b[i]]);
            lemma_text_concat(a.take(i), seq![b[i]]);
            lemma_text_one(b[i]);
            assert(anchor_char_at(b, i + 1, id, t));
        }
    }
}

/// Recutting an element moves no character of the text.
pub proof fn lemma_recut_placed(a: Seq<Elem>, b: Seq<Elem>, i: int, id: OpID, t: AnchorType, q: int)
    requires
        recut(a, b, i),
        forall|j: int| 0 <= j < a.len() ==> (#[trigger] a[j]).wf(),
        char_placed(a, id, t, q),
    ensures
        char_placed(b, id, t, q),
{
    reveal(recut);
    assert(a[i].wf());
    let k = choose|k: int|
        #[trigger] anchor_char_at(a, k, id, t) && !a[k].status.spec_is_dead() && elems_prefix(a, k)
            + id.counter - a[k].id.counter == q;
    if k < i {
        lemma_placed_before(a, b, i, id, t, k);
    } else if k > i {
        lemma_placed_after(a, b, i, id, t, k);
        let k2 = k + (b.len() - a.len());
        assert(anchor_char_at(b, k2, id, t));
    } else {
        lemma_placed_at(a, b, i, id, t);
    }
}

} // verus!
