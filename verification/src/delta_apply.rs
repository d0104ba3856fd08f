//! Applying a delta (retain, insert, delete items, as an editor sends them)
//! to a rich text.
use std::sync::Arc;
use vstd::prelude::*;
use vstd::utf8::*;

use crate::delta::{find_key, key_index, units_of, DeltaItem};
use crate::rich_text::{active_exactly, lemma_annotated_keeps, shows_at, spans_text, spec_convert_index, RichText};
use crate::rich_tree::IndexType;
use crate::utf16::{text_of, utf16_len_of};
use crate::{json_eq, json_null, str_eq, AnchorType, Annotation, Behavior, Style};

verus! {

broadcast use vstd::seq_lib::group_seq_properties;

/// `n` line breaks, as characters.
pub open spec fn line_breaks(n: nat) -> Seq<char> {
    Seq::new(n, |i: int| '\n')
}

/// The text and the index reached after applying item `d` at index `index`
/// (counted in `it` units) of the text `t`: a retain with attributes first
/// pads the text with line breaks up to its end; an insertion puts its text
/// at the index and moves past it; a deletion removes the units from the
/// index on.
pub open spec fn delta_step(t: Seq<u8>, index: int, d: DeltaItem, it: IndexType) -> (Seq<u8>, int) {
    match d {
        DeltaItem::Retain { retain, attributes } => {
            let len = units_of(text_of(t), it) as int;
            if attributes is Some && index + retain > len {
                (t + encode_utf8(line_breaks((index + retain - len) as nat)), index + retain)
            } else {
                (t, index + retain)
            }
        },
        DeltaItem::Insert { insert, .. } => if insert@.len() == 0 {
            (t, index)
        } else {
            let p = spec_convert_index(t, index, it, IndexType::Utf8);
            (t.take(p) + encode_utf8(insert@) + t.skip(p), index + units_of(insert@, it))
        },
        DeltaItem::Delete { delete } => {
            let p1 = spec_convert_index(t, index, it, IndexType::Utf8);
            let p2 = spec_convert_index(t, index + delete, it, IndexType::Utf8);
            (t.take(p1) + t.skip(p2), index)
        },
    }
}

/// Whether item `d` can be applied at index `index` of the text `t`: the
/// index stays in `usize`; a retain with attributes starts within the text;
/// an insertion or a deletion falls within the text,
/// on character boundaries when counted in bytes; a retain with attributes
/// counted in bytes covers whole characters of the padded text.
pub open spec fn delta_step_ok(t: Seq<u8>, index: int, d: DeltaItem, it: IndexType) -> bool {
    let len = units_of(text_of(t), it) as int;
    match d {
        DeltaItem::Retain { retain, attributes } => {
            &&& index + retain <= usize::MAX
            &&& attributes is Some ==> index <= len
            &&& attributes is Some && retain > 0 && it == IndexType::Utf8 ==> {
                let t2 = delta_step(t, index, d, it).0;
                is_char_boundary(t2, index) && is_char_boundary(t2, index + retain)
            }
        },
        DeltaItem::Insert { insert, .. } => insert@.len() > 0 ==> {
            &&& index <= len
            &&& it == IndexType::Utf8 ==> is_char_boundary(t, index)
            &&& index + units_of(insert@, it) <= usize::MAX
        },
        DeltaItem::Delete { delete } => {
            &&& index + delete <= len
            &&& it == IndexType::Utf8 ==> is_char_boundary(t, index) && is_char_boundary(t, index + delete)
        },
    }
}

/// The text and index after applying the items `ds` from index 0 of `t`.
pub open spec fn delta_run(t: Seq<u8>, ds: Seq<DeltaItem>, it: IndexType) -> (Seq<u8>, int)
    decreases ds.len(),
{
    if ds.len() == 0 {
        (t, 0)
    } else {
        let r = delta_run(t, ds.drop_last(), it);
        delta_step(r.0, r.1, ds.last(), it)
    }
}

/// Whether every item of `ds` can be applied in turn from index 0 of `t`.
pub open spec fn delta_run_ok(t: Seq<u8>, ds: Seq<DeltaItem>, it: IndexType) -> bool
    decreases ds.len(),
{
    if ds.len() == 0 {
        true
    } else {
        let r = delta_run(t, ds.drop_last(), it);
        delta_run_ok(t, ds.drop_last(), it) && delta_step_ok(r.0, r.1, ds.last(), it)
    }
}

/// The text of `t` after applying the delta `ds`.
pub open spec fn delta_text(t: Seq<u8>, ds: Seq<DeltaItem>, it: IndexType) -> Seq<u8> {
    delta_run(t, ds, it).0
}

/// What the items may add to the text: their inserted bytes, and for a
/// retain with attributes the units it keeps (at most that many line breaks
/// are added).
pub open spec fn delta_growth(ds: Seq<DeltaItem>) -> int
    decreases ds.len(),
{
    if ds.len() == 0 {
        0
    } else {
        delta_growth(ds.drop_last()) + match ds.last() {
            DeltaItem::Retain { retain, attributes } => match attributes {
                Some(a) => retain + a@.len(),
                None => 0,
            },
            DeltaItem::Insert { insert, .. } => encode_utf8(insert@).len() as int,
            DeltaItem::Delete { .. } => 0,
        }
    }
}

/// The anchor types of a style set by a delta on newly written text: a link
/// does not expand, other styles expand after their range.
pub fn insert_anchor_types(key: &str) -> (r: (AnchorType, AnchorType))
    ensures
        r == if key@ == "link"@ {
            (AnchorType::Before, AnchorType::After)
        } else {
            (AnchorType::Before, AnchorType::Before)
        },
{
    if str_eq(key, "link") {
        (AnchorType::Before, AnchorType::After)
    } else {
        (AnchorType::Before, AnchorType::Before)
    }
}

/// The anchor types of a style removed by a delta: removing a link expands
/// on both sides, removing another style expands after its range.
pub fn delete_anchor_types(key: &str) -> (r: (AnchorType, AnchorType))
    ensures
        r == if key@ == "link"@ {
            (AnchorType::After, AnchorType::Before)
        } else {
            (AnchorType::Before, AnchorType::Before)
        },
{
    if str_eq(key, "link") {
        (AnchorType::After, AnchorType::Before)
    } else {
        (AnchorType::Before, AnchorType::Before)
    }
}

/// The style that sets `key` to `value` (a JSON null removes it), with the
/// given anchor types.
fn delta_style(key: &String, value: &serde_json::Value, types: (AnchorType, AnchorType)) -> (s: Style)
    ensures
        s.type_@ == key@,
        s.start_type == types.0,
        s.end_type == types.1,
        s.value == *value,
{
    let null = json_null();
    let behavior = if json_eq(value, &null) {
        Behavior::Delete
    } else {
        Behavior::Merge
    };
    Style {
        start_type: types.0,
        end_type: types.1,
        behavior,
        type_: key.clone(),
        value: crate::json_clone(value),
    }
}

/// The sum of [`delta_growth`] over the items, computed.
fn growth_of(ds: &Vec<DeltaItem>) -> (g: u64)
    requires
        delta_growth(ds@) <= u32::MAX,
    ensures
        g == delta_growth(ds@),
{
    let mut g: u64 = 0;
    let mut i: usize = 0;
    while i < ds.len()
        invariant
            0 <= i <= ds@.len(),
            g == delta_growth(ds@.take(i as int)),
            delta_growth(ds@) <= u32::MAX,
        decreases ds@.len() - i,
    {
        proof {
            assert(ds@.take(i as int + 1).drop_last() =~= ds@.take(i as int));
            lemma_growth_prefix(ds@, i as int + 1);
        }
        let add: u64 = match &ds[i] {
            DeltaItem::Retain { retain, attributes } => match attributes {
                Some(a) => *retain as u64 + a.len() as u64,
                None => 0,
            },
            DeltaItem::Insert { insert, .. } => insert.as_str().len() as u64,
            DeltaItem::Delete { .. } => 0,
        };
        g = g + add;
        i = i + 1;
    }
    proof {
        assert(ds@.take(ds@.len() as int) =~= ds@);
    }
    g
}

/// The growth of a prefix is at most that of the whole.
proof fn lemma_growth_prefix(ds: Seq<DeltaItem>, n: int)
    requires
        0 <= n <= ds.len(),
    ensures
        delta_growth(ds.take(n)) <= delta_growth(ds),
        delta_growth(ds.take(n)) >= 0,
    decreases ds.len(),
{
    if n < ds.len() {
        assert(ds.drop_last().take(n) =~= ds.take(n));
        lemma_growth_prefix(ds.drop_last(), n);
    } else {
        assert(ds.take(n) =~= ds);
        lemma_growth_nonneg(ds);
    }
}

proof fn lemma_growth_nonneg(ds: Seq<DeltaItem>)
    ensures
        delta_growth(ds) >= 0,
    decreases ds.len(),
{
    if ds.len() > 0 {
        lemma_growth_nonneg(ds.drop_last());
    }
}

/// The budget of a delta's application: the text length, the counters and
/// twice what may still be added leave room below the limits.
pub open spec fn delta_budget(t: RichText, rest: int) -> bool {
    &&& 0 <= rest
    &&& t.next_counter() + t.text().len() + 2 * rest <= i32::MAX
    &&& t.next_lamport() + t.text().len() + 2 * rest <= u32::MAX
    &&& t.text().len() + 2 * rest < u32::MAX
}

/// A retain of some units that sets some attributes.
pub open spec fn styled_retain(d: DeltaItem) -> bool {
    d matches DeltaItem::Retain { retain, attributes: Some(a) } && retain > 0 && a@.len() > 0
}

/// Whether some item of `ds` is a retain of some units that sets some
/// attributes.
pub open spec fn has_styled_retain(ds: Seq<DeltaItem>) -> bool {
    exists|k: int| 0 <= k < ds.len() && #[trigger] styled_retain(ds[k])
}

/// The annotations `after` are `before` with one more annotation, of the
/// style's name, behaviour and value (an empty table takes its first
/// annotation twice: the slot 0 is never used).
pub open spec fn added_style(before: Seq<Arc<Annotation>>, after: Seq<Arc<Annotation>>, style: Style) -> bool {
    &&& after.len() > 0
    &&& after == if before.len() == 0 {
        seq![after.last(), after.last()]
    } else {
        before.push(after.last())
    }
    &&& after.last().type_@ == style.type_@
    &&& after.last().behavior == style.behavior
    &&& after.last().value == style.value
}

/// The document has room, beyond what may still be added (`rest`), for one
/// more style, and its annotation table is below the limit.
pub open spec fn style_room(t: RichText, rest: int) -> bool {
    &&& t.next_counter() + 1 + t.text().len() + 2 * rest <= i32::MAX
    &&& t.next_lamport() + 1 + t.text().len() + 2 * rest <= u32::MAX
    &&& t.annotations().len() <= ANN_LIMIT
}

/// Some annotation of `anns` from index `from` on removes style `key`.
pub open spec fn removes_style(anns: Seq<Arc<Annotation>>, from: int, key: Seq<char>) -> bool {
    exists|x: int| from <= x < anns.len() && (#[trigger] anns[x]).type_@ == key && anns[x].behavior == Behavior::Delete
}

/// Some annotation of `t` from index `from` on removes style `key`, and it
/// is active on exactly the text bytes `start..end`.
pub open spec fn removes_on(t: RichText, from: int, key: Seq<char>, start: int, end: int) -> bool {
    exists|x: int|
        from <= x < t.annotations().len() && (#[trigger] t.annotations()[x]).type_@ == key
            && t.annotations()[x].behavior == Behavior::Delete && active_exactly(t, x as i32, start, end)
}

/// Some annotation of `t` from index `from` on sets style `key` to `value`,
/// and it is active on exactly the text bytes `start..end`.
pub open spec fn sets_on(t: RichText, from: int, key: Seq<char>, value: serde_json::Value, start: int, end: int) -> bool {
    exists|x: int|
        from <= x < t.annotations().len() && (#[trigger] t.annotations()[x]).type_@ == key
            && t.annotations()[x].value == value && active_exactly(t, x as i32, start, end)
}

/// Whether `sa` holds style `key` with a value equal to `value`.
pub open spec fn shows_value(sa: Seq<(String, serde_json::Value)>, key: Seq<char>, value: serde_json::Value) -> bool {
    key_index(sa, key) >= 0 && crate::json_values_equal(sa[key_index(sa, key)].1, value)
}

/// The attributes of an optional list (none: the empty list).
pub open spec fn attrs_or_empty(a: Option<crate::delta::Attributes>) -> Seq<(String, serde_json::Value)> {
    match a {
        Some(a) => a@,
        None => Seq::empty(),
    }
}

/// The largest annotation count at which a delta still adds styles.
pub const ANN_LIMIT: usize = 2147483643;

/// Whether a style on `start..end` (counted in `it`) is set by a delta: the
/// counters have room beyond `rest`, and counted in bytes the range is
/// non-empty, starts in the text and is cut on character boundaries (an end
/// past the text standing for its end).
pub open spec fn annotate_fits(t: RichText, start: int, end: int, it: IndexType, rest: int) -> bool {
    &&& t.next_counter() + 1 + t.text().len() + 2 * rest <= i32::MAX
    &&& t.next_lamport() + 1 + t.text().len() + 2 * rest <= u32::MAX
    &&& it == IndexType::Utf8
    &&& start < end
    &&& start < t.text().len()
    &&& is_char_boundary(t.text(), start)
    &&& end <= t.text().len() ==> is_char_boundary(t.text(), end)
}

/// Annotates `start..end` (counted in `it`, `end` clamped to the text) with
/// `style` when the range is valid and the document has room for it beyond
/// `rest`; otherwise does nothing.
fn try_annotate(t: &mut RichText, start: usize, end: usize, style: Style, it: IndexType, rest: u64)
    requires
        old(t).wf(),
        delta_budget(*old(t), rest as int),
    ensures
        final(t).wf(),
        final(t).text() == old(t).text(),
        delta_budget(*final(t), rest as int),
        final(t).annotations().len() >= old(t).annotations().len(),
        annotate_fits(*old(t), start as int, end as int, it, rest as int) && final(t).annotations().len()
            <= ANN_LIMIT ==> final(t).annotations().len() > old(t).annotations().len(),
        final(t).annotations() == old(t).annotations() || added_style(old(t).annotations(), final(t).annotations(), style),
        annotate_fits(*old(t), start as int, end as int, it, rest as int) && final(t).annotations().len()
            <= ANN_LIMIT ==> added_style(old(t).annotations(), final(t).annotations(), style),
        old(t).next_counter() <= final(t).next_counter() <= old(t).next_counter() + 1,
        old(t).next_lamport() <= final(t).next_lamport() <= old(t).next_lamport() + 1,
        annotate_fits(*old(t), start as int, end as int, it, rest as int) && final(t).annotations().len()
            <= ANN_LIMIT && end <= old(t).text().len() ==> active_exactly(
            *final(t),
            (final(t).annotations().len() - 1) as i32,
            start as int,
            end as int,
        ),
        forall|x: i32, s: int, e: int|
            #![trigger active_exactly(*final(t), x, s, e)]
            0 <= x < old(t).annotations().len() && active_exactly(*old(t), x, s, e) ==> active_exactly(
                *final(t),
                x,
                s,
                e,
            ),
{
    let ghost t0 = *t;
    let (c, l) = t.next_stamps();
    let len = t.len();
    if (c as u64) + 1 + (len as u64) + 2 * rest > i32::MAX as u64 {
        return;
    }
    if (l as u64) + 1 + (len as u64) + 2 * rest > u32::MAX as u64 {
        return;
    }
    if t.annotation_count() > ANN_LIMIT {
        return;
    }
    match it {
        IndexType::Utf8 => {
            if start >= end {
                return;
            }
            if start >= len || !t.is_text_boundary(start) {
                return;
            }
            if end <= len && !t.is_text_boundary(end) {
                return;
            }
            t.annotate(start, end, style);
            proof {
                assert forall|x: i32, s: int, e: int|
                    0 <= x < t0.annotations().len() && #[trigger] active_exactly(t0, x, s, e) implies active_exactly(
                    *t,
                    x,
                    s,
                    e,
                ) by {
                    let e2 = if end > t0.text().len() { t0.text().len() as int } else { end as int };
                    lemma_annotated_keeps(t0, *t, start as int, e2, style, x, s, e);
                }
            }
        },
        IndexType::Utf16 => {
            let ul = t.len_utf16();
            let e = if end > ul {
                ul
            } else {
                end
            };
            if start > e {
                return;
            }
            proof {
                crate::rich_text::lemma_offset_mono(text_of(t.text()), start as int, e as int);
            }
            t.annotate_utf16(start, e, style);
            proof {
                assert forall|x: i32, s: int, e2: int|
                    0 <= x < t0.annotations().len() && #[trigger] active_exactly(t0, x, s, e2) implies active_exactly(
                    *t,
                    x,
                    s,
                    e2,
                ) by {
                    lemma_annotated_keeps(
                        t0,
                        *t,
                        crate::utf16::utf8_offset_of_utf16(text_of(t0.text()), start as int) as int,
                        crate::utf16::utf8_offset_of_utf16(text_of(t0.text()), e as int) as int,
                        style,
                        x,
                        s,
                        e2,
                    );
                }
            }
        },
    }
}

/// Appends `n` line breaks to the text.
fn pad_lines(t: &mut RichText, n: usize, Ghost(rest): Ghost<int>)
    requires
        old(t).wf(),
        n <= rest,
        delta_budget(*old(t), rest),
    ensures
        final(t).wf(),
        final(t).annotations() == old(t).annotations(),
        final(t).text() == old(t).text() + encode_utf8(line_breaks(n as nat)),
        delta_budget(*final(t), rest - n),
        final(t).next_counter() + final(t).text().len() + 2 * (rest - n) == old(t).next_counter()
            + old(t).text().len() + 2 * rest,
        final(t).next_lamport() + final(t).text().len() + 2 * (rest - n) == old(t).next_lamport()
            + old(t).text().len() + 2 * rest,
{
    let nl = "\n";
    proof {
        reveal_strlit("\n");
        assert(nl@ =~= seq!['\n']);
        assert(is_ascii_chars(nl@));
        is_ascii_chars_encode_utf8(nl@);
        assert(line_breaks(0) =~= Seq::<char>::empty());
        assert(encode_utf8(Seq::<char>::empty()) =~= Seq::<u8>::empty());
    }
    let ghost t0 = t.text();
    let mut k: usize = 0;
    while k < n
        invariant
            t.wf(),
            t.annotations() == old(t).annotations(),
            k <= n,
            n <= rest,
            nl@ == seq!['\n'],
            encode_utf8(nl@).len() == 1,
            t.text() == t0 + encode_utf8(line_breaks(k as nat)),
            t.next_counter() + t.text().len() + 2 * (rest - k) == old(t).next_counter() + old(t).text().len()
                + 2 * rest,
            t.next_lamport() + t.text().len() + 2 * (rest - k) == old(t).next_lamport() + old(t).text().len()
                + 2 * rest,
            t.text().len() + 2 * (rest - k) == old(t).text().len() + 2 * rest - k,
            delta_budget(*old(t), rest),
        decreases n - k,
    {
        let len = t.len();
        proof {
            t.lemma_wf_text_valid();
            is_char_boundary_start_end_of_seq(t.text());
        }
        t.insert(len, nl);
        proof {
            let tt = t.text();
            assert(line_breaks(k as nat + 1) =~= line_breaks(k as nat) + nl@);
            crate::utf16::lemma_encode_utf8_concat(line_breaks(k as nat), nl@);
        }
        k = k + 1;
    }
}

impl RichText {
    /// Applies the delta `delta`, its indices counted in `index_type`:
    /// each item in turn as [`delta_step`] says, a retain with attributes
    /// and an insertion with attributes also setting (a JSON null:
    /// removing) those styles on their range, an insertion removing the
    /// styles it took over from its place that its attributes do not hold.
    /// A style is set only while the document's counters have room for it.
    #[verifier::rlimit(80)]
    #[verifier::spinoff_prover]
    pub fn apply_delta(&mut self, delta: Vec<DeltaItem>, index_type: IndexType)
        requires
            old(self).wf(),
            delta_run_ok(old(self).text(), delta@, index_type),
            delta_budget(*old(self), delta_growth(delta@)),
        ensures
            final(self).wf(),
            final(self).text() == delta_text(old(self).text(), delta@, index_type),
            final(self).annotations().len() >= old(self).annotations().len(),
            index_type == IndexType::Utf8 && has_styled_retain(delta@) && final(self).annotations().len() <= ANN_LIMIT
                ==> final(self).annotations().len() > old(self).annotations().len(),
    {
        let ghost t0 = self.text();
        let ghost ds = delta@;
        proof {
            lemma_growth_nonneg(ds);
        }
        let total = growth_of(&delta);
        let mut rest: u64 = total;
        let mut index: usize = 0;
        let mut i: usize = 0;
        proof {
            assert(ds.take(0) =~= Seq::<DeltaItem>::empty());
        }
        while i < delta.len()
            invariant
                self.wf(),
                ds == delta@,
                0 <= i <= ds.len(),
                delta_run_ok(t0, ds, index_type),
                (self.text(), index as int) == delta_run(t0, ds.take(i as int), index_type),
                rest == delta_growth(ds) - delta_growth(ds.take(i as int)),
                delta_budget(*self, rest as int),
                self.annotations().len() >= old(self).annotations().len(),
                index_type == IndexType::Utf8 && has_styled_retain(ds.take(i as int)) && self.annotations().len()
                    <= ANN_LIMIT ==> self.annotations().len() > old(self).annotations().len(),
            decreases ds.len() - i,
        {
            let ghost tb = self.text();
            let ghost d = ds[i as int];
            proof {
                lemma_run_ok_prefix(t0, ds, index_type, i as int + 1);
                assert(ds.take(i as int + 1).drop_last() =~= ds.take(i as int));
                assert(ds.take(i as int + 1).last() == d);
                lemma_growth_prefix(ds, i as int + 1);
                lemma_growth_nonneg(ds.take(i as int));
                self.lemma_wf_text_valid();
                decode_utf8_encode_utf8(tb);
                assert(delta_step_ok(tb, index as int, d, index_type));
                assert(delta_run(t0, ds.take(i as int + 1), index_type) == delta_step(tb, index as int, d, index_type));
            }
            match &delta[i] {
                DeltaItem::Retain { retain, attributes } => {
                    match attributes {
                        Some(attrs) => {
                            proof {
                                assert(delta_growth(ds.take(i as int + 1)) == delta_growth(ds.take(i as int)) + *retain
                                    + attrs@.len());
                            }
                            self.apply_styled_retain(index, *retain, attrs, index_type, rest, Ghost(d));
                            rest = rest - *retain as u64 - attrs.len() as u64;
                        },
                        None => {
                            proof {
                                assert(delta_growth(ds.take(i as int + 1)) == delta_growth(ds.take(i as int)));
                            }
                        },
                    }
                    index = index + *retain;
                },
                DeltaItem::Insert { insert, attributes, .. } => {
                    proof {
                        assert(delta_growth(ds.take(i as int + 1)) == delta_growth(ds.take(i as int)) + encode_utf8(insert@).len());
                        crate::utf16::lemma_encode_utf8_len_bound(insert@);
                        crate::rich_text::lemma_offset_boundary(tb, index as int);
                    }
                    if insert.as_str().len() > 0 {
                        let b = insert.as_str().len();
                        let units = match index_type {
                            IndexType::Utf8 => {
                                self.insert(index, insert.as_str());
                                b
                            },
                            IndexType::Utf16 => {
                                self.insert_utf16(index, insert.as_str());
                                crate::utf16::get_utf16_len(insert.as_str())
                            },
                        };
                        proof {
                            assert(self.text().len() == tb.len() + b);
                        }
                        rest = rest - b as u64;
                        let end = index + units;
                        self.apply_insert_attributes(index, end, attributes, index_type, rest);
                        index = end;
                    } else {
                        proof {
                            encode_utf8_decode_utf8(insert@);
                            crate::utf16::lemma_text_of_empty();
                            assert(encode_utf8(insert@) =~= Seq::<u8>::empty());
                            assert(insert@.len() == 0);
                        }
                    }
                },
                DeltaItem::Delete { delete } => {
                    proof {
                        assert(delta_growth(ds.take(i as int + 1)) == delta_growth(ds.take(i as int)));
                    }
                    match index_type {
                        IndexType::Utf8 => {
                            self.delete(index, index + *delete);
                        },
                        IndexType::Utf16 => {
                            proof {
                                crate::rich_text::lemma_offset_mono(text_of(tb), index as int, index + *delete);
                                crate::rich_text::lemma_offset_boundary(tb, index + *delete);
                            }
                            self.delete_utf16(index, index + *delete);
                        },
                    }
                },
            }
            proof {
                if has_styled_retain(ds.take(i as int + 1)) {
                    let k = choose|k: int| 0 <= k < ds.take(i as int + 1).len() && #[trigger] styled_retain(
                        ds.take(i as int + 1)[k],
                    );
                    if k < i {
                        assert(ds.take(i as int)[k] == ds.take(i as int + 1)[k]);
                        assert(has_styled_retain(ds.take(i as int)));
                    }
                }
            }
            i = i + 1;
        }
        proof {
            assert(ds.take(ds.len() as int) =~= ds);
        }
    }

    /// Sets the styles of the inserted units `start..end`: removes those it
    /// took over that `attributes` lacks, sets those of `attributes` it does
    /// not already have, each by an annotation active on exactly those units.
    fn apply_insert_attributes(
        &mut self,
        start: usize,
        end: usize,
        attributes: &Option<crate::delta::Attributes>,
        it: IndexType,
        rest: u64,
    )
        requires
            old(self).wf(),
            start <= end,
            delta_budget(*old(self), rest as int),
        ensures
            final(self).wf(),
            final(self).text() == old(self).text(),
            delta_budget(*final(self), rest as int),
            final(self).annotations().len() >= old(self).annotations().len(),
            it == IndexType::Utf8 && start < end && end <= old(self).text().len() && is_char_boundary(
                old(self).text(),
                start as int,
            ) && is_char_boundary(old(self).text(), end as int) && style_room(*final(self), rest as int) ==> exists|
                sa: Seq<(String, serde_json::Value)>,
            |
                #[trigger] shows_at(*old(self), start as int, sa) && (forall|k: int|
                    0 <= k < sa.len() && key_index(attrs_or_empty(*attributes), (#[trigger] sa[k]).0@) == -1
                        ==> removes_on(*final(self), old(self).annotations().len() as int, sa[k].0@, start as int, end as int))
                    && forall|k: int|
                    0 <= k < attrs_or_empty(*attributes).len() && !shows_value(
                        sa,
                        (#[trigger] attrs_or_empty(*attributes)[k]).0@,
                        attrs_or_empty(*attributes)[k].1,
                    ) ==> sets_on(
                        *final(self),
                        old(self).annotations().len() as int,
                        attrs_or_empty(*attributes)[k].0@,
                        attrs_or_empty(*attributes)[k].1,
                        start as int,
                        end as int,
                    ),
    {
        let ghost cond = it == IndexType::Utf8 && start < end && end <= old(self).text().len() && is_char_boundary(
            old(self).text(),
            start as int,
        ) && is_char_boundary(old(self).text(), end as int);
        let ghost a0 = old(self).annotations().len() as int;
        let empty: crate::delta::Attributes = Vec::new();
        let attrs: &crate::delta::Attributes = match attributes {
            Some(a) => a,
            None => &empty,
        };
        let ok = match it {
            IndexType::Utf8 => end <= self.len() && self.is_text_boundary(start) && self.is_text_boundary(end),
            IndexType::Utf16 => true,
        };
        let spans = if ok {
            self.slice(start, end, it)
        } else {
            Vec::new()
        };
        let inherited: crate::delta::Attributes = if spans.len() > 0 {
            clone_attrs(&spans[0].attributes)
        } else {
            Vec::new()
        };
        proof {
            if cond {
                self.lemma_wf_text_valid();
                crate::rich_tree::lemma_char_boundary_subrange(self.text(), start as int, end as int);
                let sub = self.text().subrange(start as int, end as int);
                decode_utf8_encode_utf8(sub);
                if spans@.len() == 0 {
                    assert(spans_text(spans@) =~= Seq::<char>::empty());
                    assert(encode_utf8(Seq::<char>::empty()) =~= Seq::<u8>::empty());
                    assert(sub.len() > 0);
                }
                assert(spans@.len() > 0);
                let r = spans@;
                assert(r.take(0) =~= Seq::<crate::ann::Span>::empty());
                assert(spans_text(r.take(0)) =~= Seq::<char>::empty());
                assert(r.take(1).drop_last() =~= r.take(0));
                assert(spans_text(r.take(1)) =~= r[0].insert@);
                assert(r[0].insert@.len() > 0);
                encode_utf8_valid_utf8(r[0].insert@);
                encode_utf8_decode_utf8(r[0].insert@);
                assert(encode_utf8(r[0].insert@).len() > 0) by {
                    if encode_utf8(r[0].insert@).len() == 0 {
                        crate::utf16::lemma_text_of_empty();
                        assert(encode_utf8(r[0].insert@) =~= Seq::<u8>::empty());
                    }
                }
                assert(encode_utf8(Seq::<char>::empty()) =~= Seq::<u8>::empty());
                assert(shows_at(*old(self), start as int, r[0].attributes@));
            }
        }
        let ghost inh = inherited@;
        let mut j: usize = 0;
        while j < inherited.len()
            invariant
                self.wf(),
                self.text() == old(self).text(),
                delta_budget(*self, rest as int),
                self.annotations().len() >= old(self).annotations().len(),
                inh == inherited@,
                attrs@ == attrs_or_empty(*attributes),
                0 <= j <= inh.len(),
                cond ==> it == IndexType::Utf8 && start < end && end <= self.text().len() && is_char_boundary(
                    self.text(),
                    start as int,
                ) && is_char_boundary(self.text(), end as int),
                a0 == old(self).annotations().len(),
                self.next_counter() >= old(self).next_counter(),
                forall|jj: int|
                    0 <= jj < j && cond && key_index(attrs@, (#[trigger] inh[jj]).0@) == -1 && style_room(*self, rest as int)
                        ==> removes_on(*self, a0, inh[jj].0@, start as int, end as int),
            decreases inherited.len() - j,
        {
            let key = &inherited[j].0;
            let ghost sb = *self;
            if find_key(attrs, key.as_str()).is_none() {
                let style = removal_style(key);
                let ghost st = style;
                try_annotate(self, start, end, style, it, rest);
                proof {
                    assert forall|jj: int|
                        0 <= jj < j + 1 && cond && key_index(attrs@, (#[trigger] inh[jj]).0@) == -1 && style_room(*self, rest as int)
                            implies removes_on(*self, a0, inh[jj].0@, start as int, end as int) by {
                        assert(style_room(sb, rest as int));
                        if jj < j {
                            lemma_removes_kept(sb, *self, st, a0, inh[jj].0@, start as int, end as int);
                        } else {
                            assert(annotate_fits(sb, start as int, end as int, it, rest as int));
                            let an = self.annotations();
                            assert(an[an.len() - 1].type_@ == inh[jj].0@);
                            assert(active_exactly(*self, (an.len() - 1) as i32, start as int, end as int));
                        }
                    }
                }
            } else {
                proof {
                    assert(key_index(attrs@, inh[j as int].0@) != -1);
                }
            }
            j = j + 1;
        }
        let mut j: usize = 0;
        while j < attrs.len()
            invariant
                self.wf(),
                self.text() == old(self).text(),
                delta_budget(*self, rest as int),
                self.annotations().len() >= old(self).annotations().len(),
                inh == inherited@,
                attrs@ == attrs_or_empty(*attributes),
                a0 == old(self).annotations().len(),
                forall|jj: int|
                    0 <= jj < inh.len() && cond && key_index(attrs@, (#[trigger] inh[jj]).0@) == -1 && style_room(*self, rest as int)
                        ==> removes_on(*self, a0, inh[jj].0@, start as int, end as int),
                0 <= j <= attrs@.len(),
                cond ==> it == IndexType::Utf8 && start < end && end <= self.text().len() && is_char_boundary(
                    self.text(),
                    start as int,
                ) && is_char_boundary(self.text(), end as int),
                forall|jj: int|
                    0 <= jj < j && cond && !shows_value(inh, (#[trigger] attrs@[jj]).0@, attrs@[jj].1) && style_room(*self, rest as int)
                        ==> sets_on(*self, a0, attrs@[jj].0@, attrs@[jj].1, start as int, end as int),
            decreases attrs.len() - j,
        {
            let ghost sb = *self;
            let key = &attrs[j].0;
            let value = &attrs[j].1;
            let same = match find_key(&inherited, key.as_str()) {
                Some(at) => json_eq(&inherited[at].1, value),
                None => false,
            };
            if !same {
                let style = delta_style(key, value, insert_anchor_types(key.as_str()));
                let ghost st = style;
                try_annotate(self, start, end, style, it, rest);
                proof {
                    assert forall|jj: int|
                        0 <= jj < inh.len() && cond && key_index(attrs@, (#[trigger] inh[jj]).0@) == -1 && style_room(*self, rest as int)
                            implies removes_on(*self, a0, inh[jj].0@, start as int, end as int) by {
                        assert(style_room(sb, rest as int));
                        lemma_removes_kept(sb, *self, st, a0, inh[jj].0@, start as int, end as int);
                    }
                    assert forall|jj: int|
                        0 <= jj < j + 1 && cond && !shows_value(inh, (#[trigger] attrs@[jj]).0@, attrs@[jj].1) && style_room(*self, rest as int)
                            implies sets_on(*self, a0, attrs@[jj].0@, attrs@[jj].1, start as int, end as int) by {
                        assert(style_room(sb, rest as int));
                        if jj < j {
                            lemma_sets_kept(sb, *self, st, a0, attrs@[jj].0@, attrs@[jj].1, start as int, end as int);
                        } else {
                            assert(annotate_fits(sb, start as int, end as int, it, rest as int));
                            let an = self.annotations();
                            assert(an[an.len() - 1].type_@ == attrs@[jj].0@);
                            assert(an[an.len() - 1].value == attrs@[jj].1);
                            assert(active_exactly(*self, (an.len() - 1) as i32, start as int, end as int));
                        }
                    }
                }
            } else {
                proof {
                    assert(shows_value(inh, attrs@[j as int].0@, attrs@[j as int].1));
                }
            }
            j = j + 1;
        }
        proof {
            if cond && style_room(*self, rest as int) {
                let sa = spans@[0].attributes@;
                assert(sa == inh);
                assert(shows_at(*old(self), start as int, sa));
            }
        }
    }
}

/// A copy of an attribute list.
fn clone_attrs(a: &crate::delta::Attributes) -> (r: crate::delta::Attributes)
    ensures
        r@ == a@,
{
    let mut out: crate::delta::Attributes = Vec::new();
    let mut i: usize = 0;
    while i < a.len()
        invariant
            0 <= i <= a@.len(),
            out@ == a@.take(i as int),
        decreases a.len() - i,
    {
        out.push((a[i].0.clone(), crate::json_clone(&a[i].1)));
        proof {
            assert(a@.take(i as int + 1) =~= a@.take(i as int).push(a@[i as int]));
        }
        i = i + 1;
    }
    proof {
        assert(a@.take(a@.len() as int) =~= a@);
    }
    out
}

/// The style that removes style `key` (a JSON null with the removing
/// behaviour).
fn removal_style(key: &String) -> (s: Style)
    ensures
        s.type_@ == key@,
        s.behavior == Behavior::Delete,
{
    let types = delete_anchor_types(key.as_str());
    Style { start_type: types.0, end_type: types.1, behavior: Behavior::Delete, type_: key.clone(), value: json_null() }
}

/// A style kept in the table stays there when a style is added.
proof fn lemma_removes_kept(b: RichText, a: RichText, st: Style, from: int, key: Seq<char>, start: int, end: int)
    requires
        a.annotations() == b.annotations() || added_style(b.annotations(), a.annotations(), st),
        removes_on(b, from, key, start, end),
        from >= 0,
        a.annotations().len() <= ANN_LIMIT,
        forall|x: i32, s: int, e: int|
            #![trigger active_exactly(a, x, s, e)]
            0 <= x < b.annotations().len() && active_exactly(b, x, s, e) ==> active_exactly(a, x, s, e),
    ensures
        removes_on(a, from, key, start, end),
{
    let x = choose|x: int|
        from <= x < b.annotations().len() && (#[trigger] b.annotations()[x]).type_@ == key
            && b.annotations()[x].behavior == Behavior::Delete && active_exactly(b, x as i32, start, end);
    if a.annotations() != b.annotations() {
        assert(a.annotations() == b.annotations().push(a.annotations().last()));
    }
    assert(a.annotations()[x] == b.annotations()[x]);
    assert(active_exactly(a, x as i32, start, end));
}

/// A style set on a range stays set there when a style is added.
proof fn lemma_sets_kept(
    b: RichText,
    a: RichText,
    st: Style,
    from: int,
    key: Seq<char>,
    value: serde_json::Value,
    start: int,
    end: int,
)
    requires
        a.annotations() == b.annotations() || added_style(b.annotations(), a.annotations(), st),
        sets_on(b, from, key, value, start, end),
        from >= 0,
        a.annotations().len() <= ANN_LIMIT,
        forall|x: i32, s: int, e: int|
            #![trigger active_exactly(a, x, s, e)]
            0 <= x < b.annotations().len() && active_exactly(b, x, s, e) ==> active_exactly(a, x, s, e),
    ensures
        sets_on(a, from, key, value, start, end),
{
    let x = choose|x: int|
        from <= x < b.annotations().len() && (#[trigger] b.annotations()[x]).type_@ == key
            && b.annotations()[x].value == value && active_exactly(b, x as i32, start, end);
    if a.annotations() != b.annotations() {
        assert(a.annotations() == b.annotations().push(a.annotations().last()));
    }
    assert(a.annotations()[x] == b.annotations()[x]);
    assert(active_exactly(a, x as i32, start, end));
}

/// When the items of a delta can be applied in turn, item `n - 1` can be
/// applied after the ones before it.
proof fn lemma_run_ok_prefix(t: Seq<u8>, ds: Seq<DeltaItem>, it: IndexType, n: int)
    requires
        delta_run_ok(t, ds, it),
        0 < n <= ds.len(),
    ensures
        ({
            let r = delta_run(t, ds.take(n - 1), it);
            delta_step_ok(r.0, r.1, ds[n - 1], it)
        }),
    decreases ds.len(),
{
    if n < ds.len() {
        assert(ds.drop_last().take(n - 1) =~= ds.take(n - 1));
        assert(ds.drop_last()[n - 1] == ds[n - 1]);
        lemma_run_ok_prefix(t, ds.drop_last(), it, n);
    } else {
        assert(ds.take(n - 1) =~= ds.drop_last());
    }
}

impl RichText {
    /// Applies a retain of `retain` units with the attributes `attrs` at
    /// `index`: pads the text with line breaks up to the retain's end and
    /// sets each attribute on the range.
    #[verifier::rlimit(60)]
    #[verifier::spinoff_prover]
    fn apply_styled_retain(
        &mut self,
        index: usize,
        retain: usize,
        attrs: &crate::delta::Attributes,
        index_type: IndexType,
        rest: u64,
        Ghost(d): Ghost<DeltaItem>,
    )
        requires
            old(self).wf(),
            d == (DeltaItem::Retain { retain, attributes: Some(*attrs) }),
            delta_step_ok(old(self).text(), index as int, d, index_type),
            delta_budget(*old(self), rest as int),
            rest >= retain + attrs@.len(),
        ensures
            final(self).wf(),
            final(self).text() == delta_step(old(self).text(), index as int, d, index_type).0,
            delta_budget(*final(self), rest - retain - attrs@.len()),
            final(self).annotations().len() >= old(self).annotations().len(),
            index_type == IndexType::Utf8 && retain > 0 && attrs@.len() > 0 && final(self).annotations().len()
                <= ANN_LIMIT ==> final(self).annotations().len() > old(self).annotations().len(),
    {
        proof {
            self.lemma_wf_text_valid();
            decode_utf8_encode_utf8(self.text());
        }
        let len = self.len_with(index_type);
        if index + retain > len {
            let n = index + retain - len;
            pad_lines(self, n, Ghost(rest as int));
        }
        proof {
            let t2 = delta_step(old(self).text(), index as int, d, index_type).0;
            assert(self.text() == t2);
            if index_type == IndexType::Utf8 && retain > 0 {
                assert(units_of(text_of(old(self).text()), IndexType::Utf8) == old(self).text().len());
                if index + retain > old(self).text().len() {
                    let m = (index + retain - old(self).text().len()) as nat;
                    assert(is_ascii_chars(line_breaks(m)));
                    is_ascii_chars_encode_utf8(line_breaks(m));
                    assert(t2.len() == old(self).text().len() + m);
                }
                assert(is_char_boundary(t2, index as int));
                assert(is_char_boundary(t2, index + retain));
            }
        }
        let ghost ab = self.annotations().len();
        let alen = attrs.len();
        let base: u64 = rest - retain as u64 - alen as u64;
        let mut j: usize = 0;
        while j < alen
            invariant
                self.wf(),
                alen == attrs@.len(),
                j <= alen,
                self.text() == delta_step(old(self).text(), index as int, d, index_type).0,
                delta_budget(*self, base + (alen - j)),
                index + retain <= usize::MAX,
                self.annotations().len() >= ab,
                j > 0 && index_type == IndexType::Utf8 && retain > 0 && self.annotations().len()
                    <= ANN_LIMIT ==> self.annotations().len() > ab,
                index_type == IndexType::Utf8 && retain > 0 ==> {
                    &&& index < self.text().len()
                    &&& is_char_boundary(self.text(), index as int)
                    &&& is_char_boundary(self.text(), index + retain)
                    &&& index + retain <= self.text().len()
                },
            decreases alen - j,
        {
            let key = &attrs[j].0;
            let value = &attrs[j].1;
            let null = json_null();
            let types = if json_eq(value, &null) {
                delete_anchor_types(key.as_str())
            } else {
                insert_anchor_types(key.as_str())
            };
            let style = delta_style(key, value, types);
            let ghost before = *self;
            try_annotate(self, index, index + retain, style, index_type, base + (alen - j - 1) as u64);
            j = j + 1;
        }
    }
}

} // verus!
