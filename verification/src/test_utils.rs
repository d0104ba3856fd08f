//! Scripted editing of several documents, for randomised testing: actions
//! fitted to the documents' lengths, replayed on them, and a replay of
//! UTF-16 edits checked against a plain string.
use vstd::prelude::*;
use vstd::utf8::*;

use crate::fuzz_line_breaks::{ascii_str, decimal, decimal_bytes, lemma_decimal};
use crate::kept::styles_kept;
use crate::rich_text::{annotated, RichText};
use crate::utf16::{text_of, utf16_len_of, utf16_units, utf8_offset_of_utf16, utf8_width};
use crate::{AnchorType, Behavior, Style};

verus! {

broadcast use vstd::seq_lib::group_seq_properties;

/// The kinds of styles a script applies.
#[derive(Clone, Copy, Debug, PartialEq, Eq, Structural)]
pub enum AnnotationType {
    Link,
    Bold,
    Comment,
    UnBold,
    UnLink,
}

/// The JSON value `serde_json::Value::Bool(b)`.
pub uninterp spec fn json_bool_value(b: bool) -> serde_json::Value;

/// The JSON value `serde_json::Value::String(s)`.
pub uninterp spec fn json_string_value(s: Seq<char>) -> serde_json::Value;

/// `serde_json::Value::Bool`.
#[verifier::external_body]
fn json_bool(b: bool) -> (v: serde_json::Value)
    ensures
        v == json_bool_value(b),
{
    serde_json::Value::Bool(b)
}

/// `serde_json::Value::String`.
#[verifier::external_body]
fn json_string(s: String) -> (v: serde_json::Value)
    ensures
        v == json_string_value(s@),
{
    serde_json::Value::String(s)
}

/// `s` is the style of annotations of kind `t`: bold expands after its
/// range, links and comments do not expand, a removed link expands on both
/// sides; comments are all kept, the others merge or delete their type.
pub open spec fn style_of_kind(t: AnnotationType, s: Style) -> bool {
    &&& s.type_@ == match t {
        AnnotationType::Link | AnnotationType::UnLink => "link"@,
        AnnotationType::Bold | AnnotationType::UnBold => "bold"@,
        AnnotationType::Comment => "comment"@,
    }
    &&& s.behavior == match t {
        AnnotationType::Link | AnnotationType::Bold => Behavior::Merge,
        AnnotationType::Comment => Behavior::Inclusive,
        AnnotationType::UnBold | AnnotationType::UnLink => Behavior::Delete,
    }
    &&& s.start_type == match t {
        AnnotationType::UnLink => AnchorType::After,
        _ => AnchorType::Before,
    }
    &&& s.end_type == match t {
        AnnotationType::Link | AnnotationType::Comment => AnchorType::After,
        _ => AnchorType::Before,
    }
    &&& t == AnnotationType::Link ==> s.value == json_bool_value(true)
    &&& t == AnnotationType::Comment ==> s.value == json_string_value("This is a comment"@)
}

impl AnnotationType {
    /// The style of the kind (see [`style_of_kind`]).
    pub fn style(self) -> (s: Style)
        ensures
            style_of_kind(self, s),
    {
        match self {
            AnnotationType::Bold => Style {
                start_type: AnchorType::Before,
                end_type: AnchorType::Before,
                behavior: Behavior::Merge,
                type_: "bold".to_owned(),
                value: crate::json_null(),
            },
            AnnotationType::Link => Style {
                start_type: AnchorType::Before,
                end_type: AnchorType::After,
                behavior: Behavior::Merge,
                type_: "link".to_owned(),
                value: json_bool(true),
            },
            AnnotationType::Comment => Style {
                start_type: AnchorType::Before,
                end_type: AnchorType::After,
                behavior: Behavior::Inclusive,
                type_: "comment".to_owned(),
                value: json_string("This is a comment".to_owned()),
            },
            AnnotationType::UnBold => Style {
                start_type: AnchorType::Before,
                end_type: AnchorType::Before,
                behavior: Behavior::Delete,
                type_: "bold".to_owned(),
                value: crate::json_null(),
            },
            AnnotationType::UnLink => Style {
                start_type: AnchorType::After,
                end_type: AnchorType::Before,
                behavior: Behavior::Delete,
                type_: "link".to_owned(),
                value: crate::json_null(),
            },
        }
    }
}

/// One step of a script over several documents (actors).
#[derive(Clone, Copy, Debug, PartialEq, Eq, Structural)]
pub enum Action {
    Insert { actor: u8, pos: u8, content: u16 },
    Delete { actor: u8, pos: u8, len: u8 },
    Annotate { actor: u8, pos: u8, len: u8, annotation: AnnotationType },
    Sync(u8, u8),
}

/// A document edited by one peer of a script.
pub struct Actor {
    pub text: RichText,
}


impl Actor {
    /// A new empty document of peer `id`.
    pub fn new(id: usize) -> (a: Self)
        ensures
            a.text.wf(),
            a.text.text() == Seq::<u8>::empty(),
            a.text.client() == id as u64,
            a.text.next_counter() == 0,
            a.text.next_lamport() == 0,
    {
        Actor { text: RichText::new(id as u64) }
    }

    /// [`RichText::insert`].
    pub fn insert(&mut self, pos: usize, content: &str)
        requires
            old(self).text.wf(),
            pos <= old(self).text.text().len(),
            is_char_boundary(old(self).text.text(), pos as int),
            old(self).text.text().len() + encode_utf8(content@).len() < u32::MAX,
            old(self).text.has_room(encode_utf8(content@).len() as int),
        ensures
            final(self).text.wf(),
            final(self).text.text() == old(self).text.text().take(pos as int) + encode_utf8(content@)
                + old(self).text.text().skip(pos as int),
            final(self).text.next_counter() == old(self).text.next_counter() + encode_utf8(content@).len(),
            final(self).text.next_lamport() == old(self).text.next_lamport() + encode_utf8(content@).len(),
            styles_kept(
                old(self).text.elems(),
                old(self).text.init_active(),
                final(self).text.elems(),
                final(self).text.init_active(),
                pos as int,
                encode_utf8(content@).len() as int,
            ),
    {
        self.text.insert(pos, content);
    }

    /// [`RichText::insert_utf16`].
    pub fn insert_utf16(&mut self, pos: usize, content: &str)
        requires
            old(self).text.wf(),
            pos <= utf16_len_of(text_of(old(self).text.text())),
            old(self).text.text().len() + encode_utf8(content@).len() < u32::MAX,
            old(self).text.has_room(encode_utf8(content@).len() as int),
        ensures
            final(self).text.wf(),
            ({
                let t = old(self).text.text();
                let p = utf8_offset_of_utf16(text_of(t), pos as int) as int;
                final(self).text.text() == t.take(p) + encode_utf8(content@) + t.skip(p)
            }),
            final(self).text.next_counter() == old(self).text.next_counter() + encode_utf8(content@).len(),
            final(self).text.next_lamport() == old(self).text.next_lamport() + encode_utf8(content@).len(),
            styles_kept(
                old(self).text.elems(),
                old(self).text.init_active(),
                final(self).text.elems(),
                final(self).text.init_active(),
                utf8_offset_of_utf16(text_of(old(self).text.text()), pos as int) as int,
                encode_utf8(content@).len() as int,
            ),
    {
        self.text.insert_utf16(pos, content);
    }

    /// [`RichText::delete`] of `len` bytes from `pos`.
    pub fn delete(&mut self, pos: usize, len: usize)
        requires
            old(self).text.wf(),
            pos + len <= old(self).text.text().len(),
            is_char_boundary(old(self).text.text(), pos as int),
            is_char_boundary(old(self).text.text(), pos + len),
            old(self).text.has_room(len as int),
        ensures
            final(self).text.wf(),
            final(self).text.text() == old(self).text.text().take(pos as int) + old(self).text.text().skip(
                pos + len,
            ),
            final(self).text.next_counter() == old(self).text.next_counter() + len,
            final(self).text.next_lamport() == old(self).text.next_lamport() + len,
            styles_kept(
                final(self).text.elems(),
                final(self).text.init_active(),
                old(self).text.elems(),
                old(self).text.init_active(),
                pos as int,
                len as int,
            ),
    {
        proof {
            self.text.lemma_wf_text_valid();
        }
        self.text.delete(pos, pos + len);
    }

    /// [`RichText::delete_utf16`] of `len` UTF-16 units from `pos`.
    pub fn delete_utf16(&mut self, pos: usize, len: usize)
        requires
            old(self).text.wf(),
            pos + len <= utf16_len_of(text_of(old(self).text.text())),
            old(self).text.has_room(
                utf8_offset_of_utf16(text_of(old(self).text.text()), pos + len) - utf8_offset_of_utf16(
                    text_of(old(self).text.text()),
                    pos as int,
                ),
            ),
        ensures
            final(self).text.wf(),
            ({
                let t = old(self).text.text();
                let p1 = utf8_offset_of_utf16(text_of(t), pos as int) as int;
                let p2 = utf8_offset_of_utf16(text_of(t), pos + len) as int;
                &&& final(self).text.text() == t.take(p1) + t.skip(p2)
                &&& final(self).text.next_counter() == old(self).text.next_counter() + (p2 - p1)
                &&& final(self).text.next_lamport() == old(self).text.next_lamport() + (p2 - p1)
                &&& styles_kept(
                    final(self).text.elems(),
                    final(self).text.init_active(),
                    old(self).text.elems(),
                    old(self).text.init_active(),
                    p1,
                    p2 - p1,
                )
            }),
    {
        proof {
            self.text.lemma_wf_text_valid();
        }
        self.text.delete_utf16(pos, pos + len);
    }

    /// [`RichText::annotate`] of the bytes `start..end` with the style of
    /// `type_`.
    pub fn annotate(&mut self, start: usize, end: usize, type_: AnnotationType)
        requires
            old(self).text.wf(),
            start <= end <= old(self).text.text().len(),
            is_char_boundary(old(self).text.text(), start as int),
            is_char_boundary(old(self).text.text(), end as int),
            old(self).text.has_room(1),
            old(self).text.annotations().len() + 3 < i32::MAX,
        ensures
            final(self).text.wf(),
            final(self).text.text() == old(self).text.text(),
            final(self).text.next_counter() <= old(self).text.next_counter() + 1,
            final(self).text.next_lamport() <= old(self).text.next_lamport() + 1,
            final(self).text.annotations().len() <= old(self).text.annotations().len() + 2,
            exists|s: Style|
                style_of_kind(type_, s) && #[trigger] annotated(
                    old(self).text,
                    final(self).text,
                    start as int,
                    end as int,
                    s,
                ),
    {
        let s = type_.style();
        self.text.annotate(start, end, s);
    }

    /// [`RichText::annotate_utf16`] of the UTF-16 units `start..end` with the
    /// style of `type_`.
    pub fn annotate_utf16(&mut self, start: usize, end: usize, type_: AnnotationType)
        requires
            old(self).text.wf(),
            start <= end <= utf16_len_of(text_of(old(self).text.text())),
            old(self).text.has_room(1),
            old(self).text.annotations().len() + 3 < i32::MAX,
        ensures
            final(self).text.wf(),
            final(self).text.text() == old(self).text.text(),
            exists|s: Style|
                style_of_kind(type_, s) && #[trigger] annotated(
                    old(self).text,
                    final(self).text,
                    utf8_offset_of_utf16(text_of(old(self).text.text()), start as int) as int,
                    utf8_offset_of_utf16(text_of(old(self).text.text()), end as int) as int,
                    s,
                ),
    {
        let s = type_.style();
        let ghost before = self.text;
        self.text.annotate_utf16(start, end, s);
        proof {
            assert(annotated(
                before,
                self.text,
                utf8_offset_of_utf16(text_of(before.text()), start as int) as int,
                utf8_offset_of_utf16(text_of(before.text()), end as int) as int,
                s,
            ));
        }
    }

    /// [`RichText::merge`].
    pub fn merge(&mut self, other: &Self)
        requires
            old(self).text.wf(),
            other.text.wf(),
        ensures
            final(self).text.wf(),
            forall|c: u64| #[trigger] final(self).text.history_end(c) == if other.text.history_end(c)
                > old(self).text.history_end(c) {
                other.text.history_end(c)
            } else {
                old(self).text.history_end(c)
            },
    {
        self.text.merge(&other.text)
    }

    /// The length of the text in bytes.
    pub fn len(&self) -> (n: usize)
        requires
            self.text.wf(),
        ensures
            n == self.text.text().len(),
    {
        self.text.len()
    }

    /// The length of the text in UTF-16 units.
    pub fn len_utf16(&self) -> (n: usize)
        requires
            self.text.wf(),
        ensures
            n == utf16_len_of(text_of(self.text.text())),
    {
        self.text.len_utf16()
    }
}

/// `pos` fitted to a text of `len` units: taken modulo `len + 1`.
pub open spec fn fit_pos(pos: u8, len: nat) -> u8 {
    ((pos as int) % ((len + 1) as int)) as u8
}

/// A length fitted after `pos` in a text of `len` units: at most 10, taken
/// modulo what is left after `pos` (kept between 1 and 255).
pub open spec fn fit_len(l: u8, pos: u8, len: nat) -> u8 {
    let capped: int = if l < 10 {
        l as int
    } else {
        10
    };
    let left: int = if len > pos {
        len - pos
    } else {
        1
    };
    let m: int = if left > 255 {
        255
    } else {
        left
    };
    (capped % m) as u8
}

/// The action fitted to documents whose lengths are `lens`: the actor taken
/// modulo the number of documents (as a byte), the position and length
/// fitted to that document, and a sync between two different documents.
pub open spec fn fitted(a: Action, lens: Seq<nat>) -> Action {
    let m = (lens.len() as u8) as int;
    match a {
        Action::Insert { actor, pos, content } => {
            let ac = ((actor as int) % m) as u8;
            Action::Insert { actor: ac, pos: fit_pos(pos, lens[ac as int]), content }
        },
        Action::Delete { actor, pos, len } => {
            let ac = ((actor as int) % m) as u8;
            let p = fit_pos(pos, lens[ac as int]);
            Action::Delete { actor: ac, pos: p, len: fit_len(len, p, lens[ac as int]) }
        },
        Action::Annotate { actor, pos, len, annotation } => {
            let ac = ((actor as int) % m) as u8;
            let p = fit_pos(pos, lens[ac as int]);
            Action::Annotate { actor: ac, pos: p, len: fit_len(len, p, lens[ac as int]), annotation }
        },
        Action::Sync(x, y) => {
            let a2 = ((x as int) % m) as u8;
            let b2 = ((y as int) % m) as u8;
            Action::Sync(
                a2,
                if b2 == a2 {
                    ((a2 + 1) % m) as u8
                } else {
                    b2
                },
            )
        },
    }
}

/// The byte lengths of the documents' texts.
pub open spec fn byte_lens(actors: Seq<Actor>) -> Seq<nat> {
    Seq::new(actors.len(), |i: int| actors[i].text.text().len())
}

/// The UTF-16 lengths of the documents' texts.
pub open spec fn utf16_lens(actors: Seq<Actor>) -> Seq<nat> {
    Seq::new(actors.len(), |i: int| utf16_len_of(text_of(actors[i].text.text())))
}

/// Fits `action` with the documents' lengths as `lens` gives them.
fn fit_action(action: Action, m: u8, lens: &Vec<usize>) -> (r: Action)
    requires
        m as int == (lens@.len() as u8) as int,
        m > 0,
        lens@.len() > 0,
        forall|i: int| 0 <= i < lens@.len() ==> lens@[i] < u32::MAX,
    ensures
        r == fitted(action, Seq::new(lens@.len(), |i: int| lens@[i] as nat)),
{
    let ghost ls = Seq::new(lens@.len(), |i: int| lens@[i] as nat);
    match action {
        Action::Insert { actor, pos, content } => {
            let ac = actor % m;
            let l = lens[ac as usize];
            Action::Insert { actor: ac, pos: (pos as usize % (l + 1)) as u8, content }
        },
        Action::Delete { actor, pos, len } => {
            let ac = actor % m;
            let l = lens[ac as usize];
            let p = (pos as usize % (l + 1)) as u8;
            Action::Delete { actor: ac, pos: p, len: fitted_len(len, p, l) }
        },
        Action::Annotate { actor, pos, len, annotation } => {
            let ac = actor % m;
            let l = lens[ac as usize];
            let p = (pos as usize % (l + 1)) as u8;
            Action::Annotate { actor: ac, pos: p, len: fitted_len(len, p, l), annotation }
        },
        Action::Sync(x, y) => {
            let a2 = x % m;
            let mut b2 = y % m;
            if b2 == a2 {
                b2 = (a2 + 1) % m;
            }
            Action::Sync(a2, b2)
        },
    }
}

/// See [`fit_len`].
fn fitted_len(l: u8, pos: u8, len: usize) -> (r: u8)
    ensures
        r == fit_len(l, pos, len as nat),
{
    let capped: u8 = if l < 10 {
        l
    } else {
        10
    };
    let left: usize = if len > pos as usize {
        len - pos as usize
    } else {
        1
    };
    let m: u8 = if left > 255 {
        255
    } else {
        left as u8
    };
    capped % m
}

/// Fits `action` to the documents (see [`fitted`]), counting bytes.
pub fn preprocess_action(actors: &[Actor], action: &mut Action)
    requires
        (actors@.len() as u8) > 0,
        forall|i: int| 0 <= i < actors@.len() ==> (#[trigger] actors@[i]).text.wf(),
    ensures
        *final(action) == fitted(*old(action), byte_lens(actors@)),
{
    let mut lens: Vec<usize> = Vec::new();
    let mut i: usize = 0;
    while i < actors.len()
        invariant
            0 <= i <= actors@.len(),
            forall|j: int| 0 <= j < actors@.len() ==> (#[trigger] actors@[j]).text.wf(),
            lens@.len() == i,
            forall|j: int| 0 <= j < i ==> lens@[j] == actors@[j].text.text().len(),
            forall|j: int| 0 <= j < i ==> lens@[j] < u32::MAX,
        decreases actors@.len() - i,
    {
        proof {
            actors@[i as int].text.lemma_wf_text_valid();
        }
        lens.push(actors[i].len());
        i = i + 1;
    }
    proof {
        assert(Seq::new(lens@.len(), |i: int| lens@[i] as nat) =~= byte_lens(actors@));
    }
    *action = fit_action(*action, actors.len() as u8, &lens);
}

/// Fits `action` to the documents (see [`fitted`]), counting UTF-16 units.
pub fn preprocess_action_utf16(actors: &[Actor], action: &mut Action)
    requires
        (actors@.len() as u8) > 0,
        forall|i: int| 0 <= i < actors@.len() ==> (#[trigger] actors@[i]).text.wf(),
    ensures
        *final(action) == fitted(*old(action), utf16_lens(actors@)),
{
    let mut lens: Vec<usize> = Vec::new();
    let mut i: usize = 0;
    while i < actors.len()
        invariant
            0 <= i <= actors@.len(),
            forall|j: int| 0 <= j < actors@.len() ==> (#[trigger] actors@[j]).text.wf(),
            lens@.len() == i,
            forall|j: int| 0 <= j < i ==> lens@[j] == utf16_len_of(text_of(actors@[j].text.text())),
            forall|j: int| 0 <= j < i ==> lens@[j] < u32::MAX,
        decreases actors@.len() - i,
    {
        proof {
            actors@[i as int].text.lemma_wf_text_valid();
        }
        lens.push(actors[i].len_utf16());
        i = i + 1;
    }
    proof {
        assert(Seq::new(lens@.len(), |i: int| lens@[i] as nat) =~= utf16_lens(actors@));
    }
    *action = fit_action(*action, actors.len() as u8, &lens);
}


/// The document that a step edits (the receiving one for a sync).
pub open spec fn target(a: Action) -> int {
    match a {
        Action::Insert { actor, .. } => actor as int,
        Action::Delete { actor, .. } => actor as int,
        Action::Annotate { actor, .. } => actor as int,
        Action::Sync(x, _) => x as int,
    }
}

/// A step can be replayed on the documents, bytes counted: its documents
/// exist, its range lies on character boundaries of the text, and the
/// counters have room. Deleting or styling nothing always can.
pub open spec fn replayable(a: Action, actors: Seq<Actor>) -> bool {
    &&& forall|i: int| 0 <= i < actors.len() ==> (#[trigger] actors[i]).text.wf()
    &&& match a {
        Action::Insert { actor, pos, content } => {
            let t = actors[actor as int].text;
            let n = decimal(content as nat).len();
            &&& actor < actors.len()
            &&& pos <= t.text().len()
            &&& is_char_boundary(t.text(), pos as int)
            &&& t.text().len() + n < u32::MAX
            &&& t.has_room(n as int)
        },
        Action::Delete { actor, pos, len } => len == 0 || {
            let t = actors[actor as int].text;
            &&& actor < actors.len()
            &&& pos + len <= t.text().len()
            &&& is_char_boundary(t.text(), pos as int)
            &&& is_char_boundary(t.text(), pos + len)
            &&& t.has_room(len as int)
        },
        Action::Annotate { actor, pos, len, .. } => len == 0 || {
            let t = actors[actor as int].text;
            &&& actor < actors.len()
            &&& pos + len <= t.text().len()
            &&& is_char_boundary(t.text(), pos as int)
            &&& is_char_boundary(t.text(), pos + len)
            &&& t.has_room(1)
            &&& t.annotations().len() + 3 < i32::MAX
        },
        Action::Sync(x, y) => x < actors.len() && y < actors.len() && x != y,
    }
}

/// [`replayable`], with positions and lengths counted in UTF-16 units.
pub open spec fn replayable_utf16(a: Action, actors: Seq<Actor>) -> bool {
    &&& forall|i: int| 0 <= i < actors.len() ==> (#[trigger] actors[i]).text.wf()
    &&& match a {
        Action::Insert { actor, pos, content } => {
            let t = actors[actor as int].text;
            let n = decimal(content as nat).len();
            &&& actor < actors.len()
            &&& pos <= utf16_len_of(text_of(t.text()))
            &&& t.text().len() + n < u32::MAX
            &&& t.has_room(n as int)
        },
        Action::Delete { actor, pos, len } => len == 0 || {
            let t = actors[actor as int].text;
            let c = text_of(t.text());
            &&& actor < actors.len()
            &&& pos + len <= utf16_len_of(c)
            &&& t.has_room(utf8_offset_of_utf16(c, pos + len) - utf8_offset_of_utf16(c, pos as int))
        },
        Action::Annotate { actor, pos, len, .. } => len == 0 || {
            let t = actors[actor as int].text;
            &&& actor < actors.len()
            &&& pos + len <= utf16_len_of(text_of(t.text()))
            &&& t.has_room(1)
            &&& t.annotations().len() + 3 < i32::MAX
        },
        Action::Sync(x, y) => x < actors.len() && y < actors.len() && x != y,
    }
}

/// After a step, the documents other than its target are as they were.
pub open spec fn others_kept(a: Action, old_actors: Seq<Actor>, new_actors: Seq<Actor>) -> bool {
    &&& new_actors.len() == old_actors.len()
    &&& forall|i: int| 0 <= i < new_actors.len() ==> (#[trigger] new_actors[i]).text.wf()
    &&& forall|i: int| 0 <= i < new_actors.len() && i != target(a) ==> #[trigger] new_actors[i] == old_actors[i]
}

/// After a sync of `x` from `y`, document `x` has every peer's history as
/// far as the longer of the two reached.
pub open spec fn synced(x: Actor, y: Actor, after: Actor) -> bool {
    forall|c: u64| #[trigger] after.text.history_end(c) == if y.text.history_end(c) > x.text.history_end(c) {
        y.text.history_end(c)
    } else {
        x.text.history_end(c)
    }
}

/// Replays one step on the documents, bytes counted: an insertion adds the
/// decimal digits of its content, a deletion removes its range, a style
/// leaves the text as it is, a sync merges the second document into the
/// first.
pub fn apply_action(actors: &mut Vec<Actor>, action: Action)
    requires
        replayable(action, old(actors)@),
    ensures
        others_kept(action, old(actors)@, final(actors)@),
        match action {
            Action::Insert { actor, pos, content } => {
                let t = old(actors)@[actor as int].text.text();
                final(actors)@[actor as int].text.text() == t.take(pos as int) + decimal(content as nat)
                    + t.skip(pos as int)
            },
            Action::Delete { actor, pos, len } => if len == 0 {
                final(actors)@ == old(actors)@
            } else {
                let t = old(actors)@[actor as int].text.text();
                final(actors)@[actor as int].text.text() == t.take(pos as int) + t.skip(pos + len)
            },
            Action::Annotate { actor, pos, len, .. } => if len == 0 {
                final(actors)@ == old(actors)@
            } else {
                final(actors)@[actor as int].text.text() == old(actors)@[actor as int].text.text()
            },
            Action::Sync(x, y) => synced(old(actors)@[x as int], old(actors)@[y as int], final(actors)@[x as int]),
        },
{
    let ghost before = actors@;
    match action {
        Action::Insert { actor, pos, content } => {
            let i = actor as usize;
            let mut a = actors.remove(i);
            let digits = decimal_bytes(content);
            proof {
                lemma_decimal(content as nat);
            }
            let s = ascii_str(&digits);
            a.insert(pos as usize, s);
            actors.insert(i, a);
        },
        Action::Delete { actor, pos, len } => {
            if len == 0 {
                return ;
            }
            let i = actor as usize;
            let mut a = actors.remove(i);
            a.delete(pos as usize, len as usize);
            actors.insert(i, a);
        },
        Action::Annotate { actor, pos, len, annotation } => {
            if len == 0 {
                return ;
            }
            let i = actor as usize;
            let mut a = actors.remove(i);
            a.annotate(pos as usize, pos as usize + len as usize, annotation);
            actors.insert(i, a);
        },
        Action::Sync(x, y) => {
            let i = x as usize;
            let j = y as usize;
            let mut a = actors.remove(i);
            let j2 = if j > i {
                j - 1
            } else {
                j
            };
            a.merge(&actors[j2]);
            actors.insert(i, a);
        },
    }
    proof {
        assert forall|k: int| 0 <= k < actors@.len() && k != target(action) implies #[trigger] actors@[k]
            == before[k] by {
            if k < target(action) {
            } else {
            }
        }
    }
}

/// [`apply_action`], with positions and lengths counted in UTF-16 units.
pub fn apply_action_utf16(actors: &mut Vec<Actor>, action: Action)
    requires
        replayable_utf16(action, old(actors)@),
    ensures
        others_kept(action, old(actors)@, final(actors)@),
        match action {
            Action::Insert { actor, pos, content } => {
                let t = old(actors)@[actor as int].text.text();
                let p = utf8_offset_of_utf16(text_of(t), pos as int) as int;
                final(actors)@[actor as int].text.text() == t.take(p) + decimal(content as nat) + t.skip(p)
            },
            Action::Delete { actor, pos, len } => if len == 0 {
                final(actors)@ == old(actors)@
            } else {
                let t = old(actors)@[actor as int].text.text();
                let p1 = utf8_offset_of_utf16(text_of(t), pos as int) as int;
                let p2 = utf8_offset_of_utf16(text_of(t), pos + len) as int;
                final(actors)@[actor as int].text.text() == t.take(p1) + t.skip(p2)
            },
            Action::Annotate { actor, pos, len, .. } => if len == 0 {
                final(actors)@ == old(actors)@
            } else {
                final(actors)@[actor as int].text.text() == old(actors)@[actor as int].text.text()
            },
            Action::Sync(x, y) => synced(old(actors)@[x as int], old(actors)@[y as int], final(actors)@[x as int]),
        },
{
    let ghost before = actors@;
    match action {
        Action::Insert { actor, pos, content } => {
            let i = actor as usize;
            let mut a = actors.remove(i);
            let digits = decimal_bytes(content);
            proof {
                lemma_decimal(content as nat);
            }
            let s = ascii_str(&digits);
            a.insert_utf16(pos as usize, s);
            actors.insert(i, a);
        },
        Action::Delete { actor, pos, len } => {
            if len == 0 {
                return ;
            }
            let i = actor as usize;
            let mut a = actors.remove(i);
            a.delete_utf16(pos as usize, len as usize);
            actors.insert(i, a);
        },
        Action::Annotate { actor, pos, len, annotation } => {
            if len == 0 {
                return ;
            }
            let i = actor as usize;
            let mut a = actors.remove(i);
            a.annotate_utf16(pos as usize, pos as usize + len as usize, annotation);
            actors.insert(i, a);
        },
        Action::Sync(x, y) => {
            let i = x as usize;
            let j = y as usize;
            let mut a = actors.remove(i);
            let j2 = if j > i {
                j - 1
            } else {
                j
            };
            a.merge(&actors[j2]);
            actors.insert(i, a);
        },
    }
    proof {
        assert forall|k: int| 0 <= k < actors@.len() && k != target(action) implies #[trigger] actors@[k]
            == before[k] by {
            if k < target(action) {
            } else {
            }
        }
    }
}


/// The character a script inserts for a content of `i` (taken modulo 8):
/// four ASCII letters, then four CJK numerals, each one UTF-16 unit.
pub open spec fn word_char(i: int) -> char {
    if i == 0 {
        'a'
    } else if i == 1 {
        'b'
    } else if i == 2 {
        'c'
    } else if i == 3 {
        'd'
    } else if i == 4 {
        '\u{4e00}'
    } else if i == 5 {
        '\u{4e8c}'
    } else if i == 6 {
        '\u{4e09}'
    } else {
        '\u{56db}'
    }
}

/// The characters of a list of word numbers.
pub open spec fn words_chars(w: Seq<usize>) -> Seq<char> {
    w.map_values(|x: usize| word_char(x as int))
}

/// One step of a script replayed on a list of characters, positions and
/// lengths counted in characters: an insertion at the position taken modulo
/// the length (at 0 in an empty list), a deletion from there of at most what
/// is left; styles and syncs change nothing.
pub open spec fn match_step(s: Seq<char>, a: Action) -> Seq<char> {
    match a {
        Action::Insert { pos, content, .. } => {
            let p = if s.len() == 0 {
                0
            } else {
                (pos as int) % (s.len() as int)
            };
            s.insert(p, word_char((content as int) % 8))
        },
        Action::Delete { pos, len, .. } => {
            let p = if s.len() == 0 {
                0
            } else {
                (pos as int) % (s.len() as int)
            };
            let l = if (len as int) < s.len() - p {
                len as int
            } else {
                s.len() - p
            };
            s.take(p) + s.skip(p + l)
        },
        _ => s,
    }
}

/// A script replayed on an empty list of characters.
pub open spec fn match_model(acts: Seq<Action>) -> Seq<char>
    decreases acts.len(),
{
    if acts.len() == 0 {
        Seq::empty()
    } else {
        match_step(match_model(acts.drop_last()), acts.last())
    }
}

/// Every character is one UTF-16 unit.
pub open spec fn one_unit_each(c: Seq<char>) -> bool {
    forall|i: int| 0 <= i < c.len() ==> utf16_units(#[trigger] c[i]) == 1
}

/// Where every character is one UTF-16 unit, UTF-16 indices count
/// characters.
pub proof fn lemma_one_unit_offsets(c: Seq<char>, k: int)
    requires
        one_unit_each(c),
        0 <= k <= c.len(),
    ensures
        utf8_offset_of_utf16(c, k) == encode_utf8(c.take(k)).len(),
        utf16_len_of(c) == c.len(),
    decreases c.len(),
{
    if c.len() > 0 {
        assert(one_unit_each(c.drop_first()));
        assert(one_unit_each(c.drop_last()));
        lemma_one_unit_offsets(c.drop_last(), 0);
        if k > 0 {
            lemma_one_unit_offsets(c.drop_first(), k - 1);
            assert(c.take(k).drop_first() =~= c.drop_first().take(k - 1));
        } else {
            assert(c.take(k) =~= Seq::<char>::empty());
        }
    }
}

/// The string of the word numbered `i`.
fn word_str(i: usize) -> (s: &'static str)
    requires
        i < 8,
    ensures
        s@ == seq![word_char(i as int)],
{
    if i == 0 {
        proof {
            reveal_strlit("a");
        }
        "a"
    } else if i == 1 {
        proof {
            reveal_strlit("b");
        }
        "b"
    } else if i == 2 {
        proof {
            reveal_strlit("c");
        }
        "c"
    } else if i == 3 {
        proof {
            reveal_strlit("d");
        }
        "d"
    } else if i == 4 {
        proof {
            reveal_strlit("\u{4e00}");
        }
        "\u{4e00}"
    } else if i == 5 {
        proof {
            reveal_strlit("\u{4e8c}");
        }
        "\u{4e8c}"
    } else if i == 6 {
        proof {
            reveal_strlit("\u{4e09}");
        }
        "\u{4e09}"
    } else {
        proof {
            reveal_strlit("\u{56db}");
        }
        "\u{56db}"
    }
}

/// The document's text is the UTF-8 encoding of the words `s`.
pub open spec fn agrees(a: Actor, s: Seq<usize>) -> bool {
    &&& a.text.wf()
    &&& forall|j: int| 0 <= j < s.len() ==> s[j] < 8
    &&& a.text.text() == encode_utf8(words_chars(s))
}

/// A room of `n` more atoms, counting the text's bytes too.
pub open spec fn room_for(a: Actor, n: int) -> bool {
    &&& a.text.text().len() + n <= i32::MAX
    &&& a.text.next_counter() + a.text.text().len() + n <= i32::MAX
    &&& a.text.next_lamport() + a.text.text().len() + n <= i32::MAX
}

/// Inserts the word of `content` at word `pos` (see [`match_step`]) in the
/// document and in the words.
#[verifier::rlimit(40)]
#[verifier::spinoff_prover]
fn match_insert(actor: &mut Actor, s: &mut Vec<usize>, pos: u8, content: u16)
    requires
        agrees(*old(actor), old(s)@),
        room_for(*old(actor), 8),
    ensures
        agrees(*final(actor), final(s)@),
        words_chars(final(s)@) == match_step(
            words_chars(old(s)@),
            Action::Insert { actor: 0, pos, content },
        ),
        final(actor).text.next_counter() + final(actor).text.text().len() <= old(actor).text.next_counter()
            + old(actor).text.text().len() + 8,
        final(actor).text.next_lamport() + final(actor).text.text().len() <= old(actor).text.next_lamport()
            + old(actor).text.text().len() + 8,
        final(actor).text.text().len() <= old(actor).text.text().len() + 4,
{
    let ghost c = words_chars(s@);
    let ghost t = actor.text.text();
    proof {
        assert(one_unit_each(c));
        actor.text.lemma_wf_text_valid();
    }
    let p: usize = if s.len() == 0 {
        0
    } else {
        pos as usize % s.len()
    };
    let w: usize = content as usize % 8;
    let ws = word_str(w);
    proof {
        encode_utf8_decode_utf8(c);
        lemma_one_unit_offsets(c, p as int);
        crate::utf16::lemma_encode_utf8_concat(c.take(p as int), c.skip(p as int));
        assert(c =~= c.take(p as int) + c.skip(p as int));
        assert(ws@.drop_first() =~= Seq::<char>::empty());
        assert(encode_utf8(ws@.drop_first()) =~= Seq::<u8>::empty());
        assert(encode_utf8(ws@) == encode_scalar(ws@[0] as u32) + encode_utf8(ws@.drop_first()));
        assert(encode_scalar(ws@[0] as u32).len() <= 4);
        assert(encode_utf8(ws@).len() <= 4);
    }
    actor.insert_utf16(p, ws);
    s.insert(p, w);
    proof {
        let c2 = words_chars(s@);
        assert(c2 =~= c.insert(p as int, word_char(w as int)));
        assert(c2 =~= c.take(p as int) + ws@ + c.skip(p as int));
        crate::utf16::lemma_encode_utf8_concat(c.take(p as int), ws@);
        crate::utf16::lemma_encode_utf8_concat(c.take(p as int) + ws@, c.skip(p as int));
        assert(t.take(encode_utf8(c.take(p as int)).len() as int) =~= encode_utf8(c.take(p as int)));
        assert(t.skip(encode_utf8(c.take(p as int)).len() as int) =~= encode_utf8(c.skip(p as int)));
    }
}

/// Deletes at most `len` words from word `pos` (see [`match_step`]) in the
/// document and in the words.
#[verifier::rlimit(40)]
#[verifier::spinoff_prover]
fn match_delete(actor: &mut Actor, s: &mut Vec<usize>, pos: u8, len: u8)
    requires
        agrees(*old(actor), old(s)@),
        room_for(*old(actor), 0),
    ensures
        agrees(*final(actor), final(s)@),
        words_chars(final(s)@) == match_step(
            words_chars(old(s)@),
            Action::Delete { actor: 0, pos, len },
        ),
        final(actor).text.next_counter() + final(actor).text.text().len() == old(actor).text.next_counter()
            + old(actor).text.text().len(),
        final(actor).text.next_lamport() + final(actor).text.text().len() == old(actor).text.next_lamport()
            + old(actor).text.text().len(),
        final(actor).text.text().len() <= old(actor).text.text().len(),
{
    let ghost c = words_chars(s@);
    let ghost t = actor.text.text();
    proof {
        assert(one_unit_each(c));
        actor.text.lemma_wf_text_valid();
    }
    let p: usize = if s.len() == 0 {
        0
    } else {
        pos as usize % s.len()
    };
    let l: usize = if (len as usize) < s.len() - p {
        len as usize
    } else {
        s.len() - p
    };
    proof {
        encode_utf8_decode_utf8(c);
        lemma_one_unit_offsets(c, p as int);
        lemma_one_unit_offsets(c, p + l);
        crate::utf16::lemma_encode_utf8_concat(c.take(p as int), c.skip(p as int));
        crate::utf16::lemma_encode_utf8_concat(c.take(p + l), c.skip(p + l));
        assert(c =~= c.take(p as int) + c.skip(p as int));
        assert(c =~= c.take(p + l) + c.skip(p + l));
    }
    actor.delete_utf16(p, l);
    let mut k: usize = 0;
    proof {
        assert(c.take(p as int) + c.skip(p + 0) =~= c);
    }
    while k < l
        invariant
            0 <= k <= l,
            p + l <= c.len(),
            s@.len() == c.len() - k,
            words_chars(s@) == c.take(p as int) + c.skip(p + k),
            forall|j: int| 0 <= j < s@.len() ==> s@[j] < 8,
        decreases l - k,
    {
        let ghost before = s@;
        s.remove(p);
        proof {
            assert(words_chars(s@) =~= words_chars(before).remove(p as int));
            assert(words_chars(before).remove(p as int) =~= c.take(p as int) + c.skip(p + k + 1));
        }
        k = k + 1;
    }
    proof {
        crate::utf16::lemma_encode_utf8_concat(c.take(p as int), c.skip(p + l));
        assert(c.take(p + l) =~= c.take(p as int) + c.subrange(p as int, p + l));
        crate::utf16::lemma_encode_utf8_concat(c.take(p as int), c.subrange(p as int, p + l));
        assert(t.take(encode_utf8(c.take(p as int)).len() as int) =~= encode_utf8(c.take(p as int)));
        assert(t.skip(encode_utf8(c.take(p + l)).len() as int) =~= encode_utf8(c.skip(p + l)));
    }
}

/// Replays the insertions and deletions of a script on one document, with
/// positions and lengths counted in UTF-16 units, and on a list of
/// characters (see [`match_model`]), and answers whether the two texts agree
/// (they always do).
pub fn fuzzing_match_str(actions: Vec<Action>) -> (same: bool)
    requires
        actions@.len() <= 0x100_0000,
    ensures
        same,
{
    let mut actor = Actor::new(1);
    let mut s: Vec<usize> = Vec::new();
    let mut i: usize = 0;
    proof {
        assert(words_chars(s@) =~= Seq::<char>::empty());
        assert(actions@.take(0) =~= Seq::<Action>::empty());
        assert(encode_utf8(Seq::<char>::empty()) =~= Seq::<u8>::empty());
    }
    while i < actions.len()
        invariant
            0 <= i <= actions@.len(),
            actions@.len() <= 0x100_0000,
            agrees(actor, s@),
            words_chars(s@) == match_model(actions@.take(i as int)),
            actor.text.next_counter() + actor.text.text().len() <= 8 * i,
            actor.text.next_lamport() + actor.text.text().len() <= 8 * i,
            actor.text.text().len() <= 4 * i,
        decreases actions@.len() - i,
    {
        proof {
            assert(actions@.take(i as int + 1).drop_last() =~= actions@.take(i as int));
        }
        match actions[i] {
            Action::Insert { pos, content, .. } => {
                match_insert(&mut actor, &mut s, pos, content);
            },
            Action::Delete { pos, len, .. } => {
                match_delete(&mut actor, &mut s, pos, len);
            },
            _ => {},
        }
        i = i + 1;
    }
    proof {
        assert(actions@.take(actions@.len() as int) =~= actions@);
    }
    let mut bytes: Vec<u8> = Vec::new();
    let mut j: usize = 0;
    while j < s.len()
        invariant
            0 <= j <= s@.len(),
            forall|k: int| 0 <= k < s@.len() ==> s@[k] < 8,
            bytes@ == encode_utf8(words_chars(s@.take(j as int))),
        decreases s@.len() - j,
    {
        let ws = word_str(s[j]);
        bytes.extend_from_slice(ws.as_bytes());
        proof {
            assert(words_chars(s@.take(j as int + 1)) =~= words_chars(s@.take(j as int)) + ws@);
            crate::utf16::lemma_encode_utf8_concat(words_chars(s@.take(j as int)), ws@);
        }
        j = j + 1;
    }
    proof {
        assert(s@.take(s@.len() as int) =~= s@);
        encode_utf8_valid_utf8(words_chars(s@));
        encode_utf8_decode_utf8(words_chars(s@));
    }
    let expected = crate::utf16::bytes_to_str(bytes.as_slice());
    let got = actor.text.to_string();
    crate::str_eq(got.as_str(), expected)
}

} // verus!
