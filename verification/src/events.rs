//! The events of local edits, in the delta format, for whoever watches the
//! document. Indices are counted in the document's event unit
//! ([`RichText::event_unit`]); items that change nothing are left out.
use vstd::prelude::*;
use vstd::utf8::*;

use crate::delta::{units_of, DeltaItem, Event};
use crate::rich_text::{spec_convert_index, styles_at, RichText};
use crate::rich_tree::{lemma_char_boundary_split, lemma_char_boundary_subrange, IndexType};
use crate::utf16::{lemma_text_of_concat, lemma_utf16_len_concat, text_of};
use crate::Style;

verus! {

broadcast use vstd::seq_lib::group_seq_properties;

/// An insertion of `s`, counted in units of `t`, with the styles in effect
/// on byte `position` of `doc`.
pub open spec fn is_insert_of(d: DeltaItem, s: Seq<char>, t: IndexType, doc: RichText, position: int) -> bool {
    match d {
        DeltaItem::Insert { insert, attributes, len, index_type } => {
            &&& insert@ == s
            &&& len == Some(units_of(s, t) as usize)
            &&& index_type == Some(t)
            &&& match attributes {
                Some(a) => styles_at(doc, position, a@),
                None => false,
            }
        },
        _ => false,
    }
}

/// Keeping `n` units, setting the one style `k` to `v` on them.
pub open spec fn is_styled_retain(d: DeltaItem, n: int, k: Seq<char>, v: serde_json::Value) -> bool {
    match d {
        DeltaItem::Retain { retain, attributes: Some(a) } => {
            &&& retain == n
            &&& a@.len() == 1
            &&& a@[0].0@ == k
            &&& a@[0].1 == v
        },
        _ => false,
    }
}

/// Converting indices keeps their order.
pub proof fn lemma_convert_mono(t: Seq<u8>, a: int, b: int, to: IndexType)
    requires
        valid_utf8(t),
        0 <= a <= b <= t.len(),
        is_char_boundary(t, a),
        is_char_boundary(t, b),
    ensures
        spec_convert_index(t, a, IndexType::Utf8, to) <= spec_convert_index(t, b, IndexType::Utf8, to),
{
    if to == IndexType::Utf16 {
        lemma_char_boundary_split(t, a);
        lemma_char_boundary_subrange(t, a, b);
        assert(t.take(b) =~= t.take(a) + t.subrange(a, b));
        lemma_text_of_concat(t.take(a), t.subrange(a, b));
        lemma_utf16_len_concat(text_of(t.take(a)), text_of(t.subrange(a, b)));
    }
}

impl RichText {
    /// The event of having inserted `string` at byte `index`: keep what comes
    /// before, then the inserted text with the styles in effect where it
    /// stands.
    pub fn insert_event(&self, index: usize, string: &str) -> (e: Event)
        requires
            self.wf(),
            index <= self.text().len(),
            is_char_boundary(self.text(), index as int),
            units_of(string@, self.event_unit()) <= usize::MAX,
        ensures
            e.is_local,
            e.index_type == self.event_unit(),
            ({
                let r = spec_convert_index(self.text(), index as int, IndexType::Utf8, self.event_unit());
                let n = e.ops@.len() as int;
                &&& n == if r == 0 {
                    1int
                } else {
                    2int
                }
                &&& r != 0 ==> e.ops@[0] == DeltaItem::Retain { retain: r as usize, attributes: None }
                &&& is_insert_of(e.ops@[n - 1], string@, self.event_unit(), *self, index as int)
            }),
    {
        let t = self.event_index_type();
        let retain = self.convert_index(index, IndexType::Utf8, t);
        let attrs = self.get_style_at_position(index);
        let mut ops: Vec<DeltaItem> = Vec::new();
        if retain > 0 {
            ops.push(DeltaItem::retain(retain));
        }
        ops.push(DeltaItem::insert_with_attributes(string.to_owned(), t, attrs));
        Event { ops, is_local: true, index_type: t }
    }

    /// The event of deleting the bytes `start..end`, seen before the
    /// deletion: keep what comes before, then delete the range. `None` for an
    /// empty range, which changes nothing.
    pub fn delete_event(&self, start: usize, end: usize) -> (e: Option<Event>)
        requires
            self.wf(),
            start <= end <= self.text().len(),
            is_char_boundary(self.text(), start as int),
            is_char_boundary(self.text(), end as int),
        ensures
            e is None <==> start == end,
            e matches Some(e) ==> {
                let r = spec_convert_index(self.text(), start as int, IndexType::Utf8, self.event_unit());
                let q = spec_convert_index(self.text(), end as int, IndexType::Utf8, self.event_unit());
                &&& e.is_local
                &&& e.index_type == self.event_unit()
                &&& r <= q
                &&& e.ops@ == (if r == 0 {
                    Seq::empty()
                } else {
                    seq![DeltaItem::Retain { retain: r as usize, attributes: None }]
                }) + (if q == r {
                    Seq::empty()
                } else {
                    seq![DeltaItem::Delete { delete: (q - r) as usize }]
                })
            },
    {
        if start == end {
            return None;
        }
        let t = self.event_index_type();
        proof {
            self.lemma_wf_text_valid();
            lemma_convert_mono(self.text(), start as int, end as int, t);
        }
        let retain = self.convert_index(start, IndexType::Utf8, t);
        let stop = self.convert_index(end, IndexType::Utf8, t);
        let mut ops: Vec<DeltaItem> = Vec::new();
        if retain > 0 {
            ops.push(DeltaItem::retain(retain));
        }
        if stop > retain {
            ops.push(DeltaItem::delete(stop - retain));
        }
        proof {
            let a: Seq<DeltaItem> = if retain == 0 {
                Seq::empty()
            } else {
                seq![DeltaItem::Retain { retain, attributes: None }]
            };
            let b: Seq<DeltaItem> = if stop == retain {
                Seq::empty()
            } else {
                seq![DeltaItem::Delete { delete: (stop - retain) as usize }]
            };
            assert(ops@ =~= a + b);
        }
        Some(Event { ops, is_local: true, index_type: t })
    }

    /// The event of giving the bytes `start..end` the style `style`, seen
    /// before: keep what comes before, then keep the range with the style set.
    /// `None` for an empty range, which changes nothing.
    pub fn annotate_event(&self, start: usize, end: usize, style: &Style) -> (e: Option<Event>)
        requires
            self.wf(),
            start <= end <= self.text().len(),
            is_char_boundary(self.text(), start as int),
            is_char_boundary(self.text(), end as int),
        ensures
            e is None <==> start == end,
            e matches Some(e) ==> {
                let r = spec_convert_index(self.text(), start as int, IndexType::Utf8, self.event_unit());
                let q = spec_convert_index(self.text(), end as int, IndexType::Utf8, self.event_unit());
                let n = e.ops@.len() as int;
                &&& e.is_local
                &&& e.index_type == self.event_unit()
                &&& r <= q
                &&& n == (if r == 0 {
                    0int
                } else {
                    1int
                }) + (if q == r {
                    0int
                } else {
                    1int
                })
                &&& r != 0 ==> e.ops@[0] == DeltaItem::Retain { retain: r as usize, attributes: None }
                &&& q != r ==> is_styled_retain(e.ops@[n - 1], q - r, style.type_@, style.value)
            },
    {
        if start == end {
            return None;
        }
        let t = self.event_index_type();
        proof {
            self.lemma_wf_text_valid();
            lemma_convert_mono(self.text(), start as int, end as int, t);
        }
        let retain = self.convert_index(start, IndexType::Utf8, t);
        let stop = self.convert_index(end, IndexType::Utf8, t);
        let mut ops: Vec<DeltaItem> = Vec::new();
        if retain > 0 {
            ops.push(DeltaItem::retain(retain));
        }
        if stop > retain {
            let mut attributes: Vec<(String, serde_json::Value)> = Vec::new();
            attributes.push((style.type_.clone(), crate::json_clone(&style.value)));
            ops.push(DeltaItem::retain_with_attributes(stop - retain, attributes));
        }
        Some(Event { ops, is_local: true, index_type: t })
    }
}

} // verus!
