//! A rich-text CRDT in the style of Peritext (range annotations anchored to
//! characters) over a Fugue-like list CRDT.
//!
//! The library keeps the pieces that decide things: operation identifiers and
//! their arithmetic, run-length encoded deletions, the op store that orders and
//! trims remote operations, version vectors, the annotation anchor sets and the
//! text measures (UTF-8, UTF-16, line breaks). Each function states in its
//! contract what it returns, over the models defined next to it.
use vstd::prelude::*;

pub mod utf16;
pub mod op;
pub mod bytes;
pub mod fx;
pub mod small_set;
pub mod ann;
pub mod error;
pub mod vv;
pub mod rich_tree;
pub mod rich_text;
pub mod anchors;
pub mod placed;
pub mod kept;
pub mod fuzz_line_breaks;
pub mod encoding;
pub mod decoding;
pub mod delta;
pub mod delta_apply;
pub mod range_map;
pub mod events;
pub mod test_utils;

verus! {

/// Lamport timestamp of an operation.
pub type Lamport = u32;

/// Identifier of a peer.
pub type ClientID = u64;

/// Per-peer operation counter.
pub type Counter = u32;

/// The identifier of one atom (one byte of text, one annotation, one deleted
/// atom) produced by a peer: the peer and the position in its own history.
#[derive(Debug, Clone, Copy, PartialEq, Eq, PartialOrd, Ord, Hash, Structural)]
pub struct OpID {
    pub client: ClientID,
    pub counter: Counter,
}

impl OpID {
    pub fn new(client: u64, counter: Counter) -> (id: Self)
        ensures
            id.client == client,
            id.counter == counter,
    {
        OpID { client, counter }
    }

    /// The id `inc` atoms later in the same peer's history.
    pub fn inc(&self, inc: Counter) -> (id: Self)
        requires
            self.counter + inc <= u32::MAX,
        ensures
            id.client == self.client,
            id.counter == self.counter + inc,
    {
        OpID { client: self.client, counter: self.counter + inc }
    }

    /// Moves the counter by a signed amount. Moving below zero saturates at
    /// `u32::MAX`, which no real operation can carry.
    pub fn inc_i32(&self, inc: i32) -> (id: Self)
        requires
            inc > i32::MIN,
            inc > 0 ==> self.counter + inc <= u32::MAX,
        ensures
            id.client == self.client,
            id.counter == spec_shift_counter(self.counter, inc as int),
    {
        if inc > 0 {
            OpID { client: self.client, counter: self.counter + inc as Counter }
        } else {
            let dec: u32 = (-inc) as u32;
            let counter: u32 = if self.counter >= dec {
                self.counter - dec
            } else {
                u32::MAX
            };
            OpID { client: self.client, counter }
        }
    }
}

/// The counter after moving `counter` by `inc`, saturating at `u32::MAX` when
/// it would go below zero.
pub open spec fn spec_shift_counter(counter: u32, inc: int) -> u32 {
    if inc > 0 {
        (counter + inc) as u32
    } else if counter + inc >= 0 {
        (counter + inc) as u32
    } else {
        u32::MAX
    }
}

/// A run of `len` consecutive ids of one peer, starting at `id`.
pub struct IdSpan {
    pub id: OpID,
    pub len: Counter,
}

impl IdSpan {
    pub fn new(id: OpID, len: usize) -> (s: Self)
        ensures
            s.id == id,
            s.len == len as u32,
    {
        IdSpan { id, len: len as Counter }
    }

    /// Whether `id` lies in the span.
    pub open spec fn spec_contains(&self, id: OpID) -> bool {
        &&& self.id.client == id.client
        &&& self.id.counter <= id.counter
        &&& id.counter < self.id.counter + self.len
    }

    pub fn contains(&self, id: OpID) -> (b: bool)
        requires
            self.id.counter + self.len <= u32::MAX,
        ensures
            b == self.spec_contains(id),
    {
        self.id.client == id.client && self.id.counter <= id.counter && id.counter
            < self.id.counter + self.len
    }
}

/// On which side of its character an anchor sits.
#[derive(Clone, Copy, Debug, PartialEq, Eq, PartialOrd, Ord, Hash, Structural)]
pub enum AnchorType {
    Before,
    After,
}

/// How overlapping annotations of the same type combine.
#[derive(Clone, Copy, Debug, PartialEq, Eq, PartialOrd, Ord, Hash, Structural)]
pub enum Behavior {
    /// Keep all the ranges even if they have the same type (comments).
    Inclusive,
    /// Merge overlapping ranges of the same type (bold).
    Merge,
    /// Delete the overlapped range that has a smaller lamport and the same type.
    Delete,
}

/// A change of a range annotation. If both `move_start_to` and `move_end_to`
/// are `None`, the target range is deleted.
#[derive(Clone, Copy, Debug, PartialEq, Eq, Structural)]
pub struct Patch {
    pub id: OpID,
    pub target_range_id: OpID,
    pub move_start_to: Option<OpID>,
    pub move_end_to: Option<OpID>,
    pub lamport: Lamport,
}

/// The two anchors of a range annotation.
#[derive(Debug, PartialEq, Eq, Clone, Copy, PartialOrd, Ord, Structural)]
pub struct AnchorRange {
    pub start: Anchor,
    pub end: Anchor,
}

/// A position between characters: before or after the character `id`; `None`
/// stands for the very beginning or the very end of the document.
#[derive(Copy, Clone, Debug, PartialEq, Eq, PartialOrd, Ord, Structural)]
pub struct Anchor {
    pub id: Option<OpID>,
    pub type_: AnchorType,
}

/// A JSON value carried by an annotation (the value of a link, of a comment).
#[verifier::external_type_specification]
#[verifier::external_body]
pub struct ExJsonValue(serde_json::Value);

/// `serde_json::Value::Null`.
#[verifier::external_body]
pub(crate) fn json_null() -> (v: serde_json::Value) {
    serde_json::Value::Null
}

/// `<serde_json::Value as Clone>::clone`: the same JSON value.
#[verifier::external_body]
pub(crate) fn json_clone(v: &serde_json::Value) -> (r: serde_json::Value)
    ensures
        r == *v,
{
    v.clone()
}

/// Whether two JSON values are equal as `serde_json::Value`'s derived `==`
/// decides (variant by variant, field by field: the numbers `1` and `1.0`
/// differ).
pub uninterp spec fn json_values_equal(a: serde_json::Value, b: serde_json::Value) -> bool;

/// `<serde_json::Value as PartialEq>::eq`.
#[verifier::external_body]
pub(crate) fn json_eq(a: &serde_json::Value, b: &serde_json::Value) -> (r: bool)
    ensures
        r == json_values_equal(*a, *b),
{
    a == b
}

/// A range annotation: a style attached to the characters between two
/// anchors.
pub struct Annotation {
    pub id: OpID,
    /// lamport value of the current range (it may be updated by patch)
    pub range_lamport: (Lamport, OpID),
    pub range: AnchorRange,
    pub behavior: Behavior,
    /// "bold", "comment", "italic", etc.
    pub type_: String,
    pub value: serde_json::Value,
}

/// Whether the lamport pair `a` orders before `b` (lamport first, then peer,
/// then counter).
pub open spec fn lamport_lt(a: (Lamport, OpID), b: (Lamport, OpID)) -> bool {
    a.0 < b.0 || (a.0 == b.0 && (a.1.client < b.1.client || (a.1.client == b.1.client
        && a.1.counter < b.1.counter)))
}

/// See [`lamport_lt`].
pub fn lamport_less(a: &(Lamport, OpID), b: &(Lamport, OpID)) -> (r: bool)
    ensures
        r == lamport_lt(*a, *b),
{
    a.0 < b.0 || (a.0 == b.0 && (a.1.client < b.1.client || (a.1.client == b.1.client
        && a.1.counter < b.1.counter)))
}

/// A style to apply to a range: on which side of the first and last
/// characters the anchors go, how it combines, its type and value.
pub struct Style {
    pub start_type: AnchorType,
    pub end_type: AnchorType,
    pub behavior: Behavior,
    /// "bold", "comment", "italic", etc.
    pub type_: String,
    pub value: serde_json::Value,
}

/// The anchor sides that an `expand` option names, or `None` for an unknown
/// option: absent and `"after"` expand after the range, `"none"` does not
/// expand, `"start"` expands before it, `"both"` on both sides.
pub open spec fn expand_types(expand: Option<Seq<char>>) -> Option<(AnchorType, AnchorType)> {
    match expand {
        None => Some((AnchorType::Before, AnchorType::Before)),
        Some(e) => if e == "none"@ {
            Some((AnchorType::Before, AnchorType::After))
        } else if e == "start"@ {
            Some((AnchorType::After, AnchorType::After))
        } else if e == "after"@ {
            Some((AnchorType::Before, AnchorType::Before))
        } else if e == "both"@ {
            Some((AnchorType::After, AnchorType::Before))
        } else {
            None
        },
    }
}

/// Whether two strings hold the same characters.
pub fn str_eq(a: &str, b: &str) -> (r: bool)
    ensures
        r == (a@ == b@),
{
    let x = a.as_bytes();
    let y = b.as_bytes();
    proof {
        vstd::utf8::encode_utf8_decode_utf8(a@);
        vstd::utf8::encode_utf8_decode_utf8(b@);
        assert(x@ == vstd::utf8::encode_utf8(a@));
        assert(y@ == vstd::utf8::encode_utf8(b@));
    }
    if x.len() != y.len() {
        return false;
    }
    let mut i: usize = 0;
    while i < x.len()
        invariant
            x.len() == y.len(),
            x@ == vstd::utf8::encode_utf8(a@),
            y@ == vstd::utf8::encode_utf8(b@),
            0 <= i <= x.len(),
            forall|k: int| 0 <= k < i ==> x@[k] == y@[k],
        decreases x.len() - i,
    {
        if x[i] != y[i] {
            return false;
        }
        i = i + 1;
    }
    proof {
        assert(x@ =~= y@);
    }
    true
}

impl Style {
    /// A style whose anchor sides follow the `expand` option; an unknown
    /// option is an error.
    pub fn new_from_expand(
        expand: Option<&str>,
        type_: String,
        value: serde_json::Value,
        behavior: Behavior,
    ) -> (r: Result<Self, crate::error::Error>)
        ensures
            match expand_types(
                match expand {
                    Some(e) => Some(e@),
                    None => None,
                },
            ) {
                Some(t) => r matches Ok(s) && s.start_type == t.0 && s.end_type == t.1
                    && s.behavior == behavior && s.type_@ == type_@ && s.value == value,
                None => r == Err::<Style, crate::error::Error>(crate::error::Error::InvalidExpand),
            },
    {
        let (start_type, end_type) = match expand {
            None => (AnchorType::Before, AnchorType::Before),
            Some(e) => {
                if str_eq(e, "none") {
                    (AnchorType::Before, AnchorType::After)
                } else if str_eq(e, "start") {
                    (AnchorType::After, AnchorType::After)
                } else if str_eq(e, "after") {
                    (AnchorType::Before, AnchorType::Before)
                } else if str_eq(e, "both") {
                    (AnchorType::After, AnchorType::Before)
                } else {
                    return Err(crate::error::Error::InvalidExpand);
                }
            },
        };
        Ok(Style { start_type, end_type, behavior, type_, value })
    }

    /// A style like bold: expands after the range, merges.
    pub fn new_bold_like(type_: String, value: serde_json::Value) -> (s: Self)
        ensures
            s.start_type == AnchorType::Before,
            s.end_type == AnchorType::Before,
            s.behavior == Behavior::Merge,
            s.type_@ == type_@,
            s.value == value,
    {
        Style {
            start_type: AnchorType::Before,
            end_type: AnchorType::Before,
            behavior: Behavior::Merge,
            type_,
            value,
        }
    }

    /// The style that removes a bold-like style.
    pub fn new_erase_bold_like(type_: String) -> (s: Self)
        ensures
            s.start_type == AnchorType::Before,
            s.end_type == AnchorType::Before,
            s.behavior == Behavior::Delete,
            s.type_@ == type_@,
    {
        Style {
            start_type: AnchorType::Before,
            end_type: AnchorType::Before,
            behavior: Behavior::Delete,
            type_,
            value: json_null(),
        }
    }

    /// A style like a link: does not expand, merges.
    pub fn new_link_like(type_: String, value: serde_json::Value) -> (s: Self)
        ensures
            s.start_type == AnchorType::Before,
            s.end_type == AnchorType::After,
            s.behavior == Behavior::Merge,
            s.type_@ == type_@,
            s.value == value,
    {
        Style {
            start_type: AnchorType::Before,
            end_type: AnchorType::After,
            behavior: Behavior::Merge,
            type_,
            value,
        }
    }

    /// The style that removes a link-like style.
    pub fn new_erase_link_like(type_: String) -> (s: Self)
        ensures
            s.start_type == AnchorType::Before,
            s.end_type == AnchorType::After,
            s.behavior == Behavior::Delete,
            s.type_@ == type_@,
    {
        Style {
            start_type: AnchorType::Before,
            end_type: AnchorType::After,
            behavior: Behavior::Delete,
            type_,
            value: json_null(),
        }
    }

    /// A style like a comment: expands after the range, overlapping ranges of
    /// the same type are all kept.
    pub fn new_comment_like(type_: String, value: serde_json::Value) -> (s: Self)
        ensures
            s.start_type == AnchorType::Before,
            s.end_type == AnchorType::Before,
            s.behavior == Behavior::Inclusive,
            s.type_@ == type_@,
            s.value == value,
    {
        Style {
            start_type: AnchorType::Before,
            end_type: AnchorType::Before,
            behavior: Behavior::Inclusive,
            type_,
            value,
        }
    }
}

/// An operation on ranges: a patch of an annotation, or a new annotation.
pub enum RangeOp {
    Patch(Patch),
    Annotate(Annotation),
}

impl RangeOp {
    pub fn id(&self) -> (id: OpID)
        ensures
            id == match self {
                RangeOp::Patch(x) => x.id,
                RangeOp::Annotate(x) => x.id,
            },
    {
        match self {
            RangeOp::Patch(x) => x.id,
            RangeOp::Annotate(x) => x.id,
        }
    }

    pub fn set_id(&mut self, id: OpID)
        ensures
            match (*old(self), *final(self)) {
                (RangeOp::Patch(a), RangeOp::Patch(b)) => b == Patch { id, ..a },
                (RangeOp::Annotate(a), RangeOp::Annotate(b)) => b.id == id && b.range_lamport == a.range_lamport
                    && b.range == a.range && b.behavior == a.behavior && b.type_ == a.type_
                    && b.value == a.value,
                _ => false,
            },
    {
        match self {
            RangeOp::Patch(x) => x.id = id,
            RangeOp::Annotate(x) => x.id = id,
        }
    }

    pub fn lamport(&self) -> (l: Lamport)
        ensures
            l == match self {
                RangeOp::Patch(x) => x.lamport,
                RangeOp::Annotate(x) => x.range_lamport.0,
            },
    {
        match self {
            RangeOp::Patch(x) => x.lamport,
            RangeOp::Annotate(x) => x.range_lamport.0,
        }
    }
}

impl Anchor {
    pub fn before(id: OpID) -> (a: Self)
        ensures
            a.id == Some(id),
            a.type_ == AnchorType::Before,
    {
        Anchor { id: Some(id), type_: AnchorType::Before }
    }

    pub fn after(id: OpID) -> (a: Self)
        ensures
            a.id == Some(id),
            a.type_ == AnchorType::After,
    {
        Anchor { id: Some(id), type_: AnchorType::After }
    }

    pub fn before_none() -> (a: Self)
        ensures
            a.id.is_none(),
            a.type_ == AnchorType::Before,
    {
        Anchor { id: None, type_: AnchorType::Before }
    }

    pub fn after_none() -> (a: Self)
        ensures
            a.id.is_none(),
            a.type_ == AnchorType::After,
    {
        Anchor { id: None, type_: AnchorType::After }
    }
}

} // verus!
