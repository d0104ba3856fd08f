//! Changes to a rich text in the delta format: a list of items, each keeping
//! (retain), inserting or deleting a run of the text, the first two with
//! optional attributes (style names and their JSON values).
use vstd::prelude::*;
use vstd::utf8::*;

use crate::rich_tree::IndexType;
use crate::utf16::{get_utf16_len, utf16_len_of, utf16_to_utf8, utf8_offset_of_utf16, text_of};
use crate::{json_clone, str_eq};

verus! {

broadcast use vstd::seq_lib::group_seq_properties;

/// Style names with their values.
pub type Attributes = Vec<(String, serde_json::Value)>;

/// One item of a delta.
#[derive(Debug, Clone)]
pub enum DeltaItem {
    /// Keeps `retain` units, setting the given attributes on them.
    Retain { retain: usize, attributes: Option<Attributes> },
    /// Inserts `insert` (of `len` units of `index_type`), with the given
    /// attributes.
    Insert {
        insert: String,
        attributes: Option<Attributes>,
        len: Option<usize>,
        index_type: Option<IndexType>,
    },
    /// Deletes `delete` units.
    Delete { delete: usize },
}

/// A change of the document, as a delta, counted in `index_type` units.
#[derive(Debug, Clone)]
pub struct Event {
    pub ops: Vec<DeltaItem>,
    pub is_local: bool,
    pub index_type: IndexType,
}

/// The length of `s` counted in units of `t`.
pub open spec fn units_of(s: Seq<char>, t: IndexType) -> nat {
    match t {
        IndexType::Utf8 => encode_utf8(s).len(),
        IndexType::Utf16 => utf16_len_of(s),
    }
}

/// The length of an item: what it keeps or deletes; for an insertion its
/// stored length, or its UTF-16 length when none is stored.
pub open spec fn item_len(d: DeltaItem) -> nat {
    match d {
        DeltaItem::Retain { retain, .. } => retain as nat,
        DeltaItem::Insert { insert, len, .. } => match len {
            Some(l) => l as nat,
            None => utf16_len_of(insert@),
        },
        DeltaItem::Delete { delete } => delete as nat,
    }
}

/// The attributes of an item (none for a deletion).
pub open spec fn item_attrs(d: DeltaItem) -> Option<Attributes> {
    match d {
        DeltaItem::Retain { attributes, .. } => attributes,
        DeltaItem::Insert { attributes, .. } => attributes,
        DeltaItem::Delete { .. } => None,
    }
}

/// The first position of style `k` among `s`, or -1.
pub open spec fn key_index(s: Seq<(String, serde_json::Value)>, k: Seq<char>) -> int
    decreases s.len(),
{
    if s.len() == 0 {
        -1
    } else {
        let r = key_index(s.drop_last(), k);
        if r >= 0 {
            r
        } else if s.last().0@ == k {
            s.len() - 1
        } else {
            -1
        }
    }
}

/// `s` with style `k` set to `v`: replaced where `k` first occurs, added at
/// the end when it does not.
pub open spec fn attrs_put(s: Seq<(String, serde_json::Value)>, k: String, v: serde_json::Value) -> Seq<
    (String, serde_json::Value),
> {
    let i = key_index(s, k@);
    if i >= 0 {
        s.update(i, (k, v))
    } else {
        s.push((k, v))
    }
}

/// `s` with each style of `t` set in turn.
pub open spec fn attrs_merge(
    s: Seq<(String, serde_json::Value)>,
    t: Seq<(String, serde_json::Value)>,
) -> Seq<(String, serde_json::Value)>
    decreases t.len(),
{
    if t.len() == 0 {
        s
    } else {
        let m = attrs_merge(s, t.drop_last());
        attrs_put(m, t.last().0, t.last().1)
    }
}

/// The first position of a style among `s`, or -1 (see [`key_index`]).
pub(crate) fn find_key(s: &Attributes, k: &str) -> (r: Option<usize>)
    ensures
        match r {
            Some(i) => i == key_index(s@, k@) && i < s@.len(),
            None => key_index(s@, k@) == -1,
        },
{
    let mut i: usize = 0;
    while i < s.len()
        invariant
            0 <= i <= s@.len(),
            key_index(s@.take(i as int), k@) == -1,
        decreases s@.len() - i,
    {
        proof {
            assert(s@.take(i as int + 1).drop_last() =~= s@.take(i as int));
        }
        if str_eq(s[i].0.as_str(), k) {
            proof {
                lemma_key_index_prefix(s@, i as int + 1, k@);
            }
            return Some(i);
        }
        i = i + 1;
    }
    proof {
        assert(s@.take(s@.len() as int) =~= s@);
    }
    None
}

/// A style found among the first items is found at the same place among all.
proof fn lemma_key_index_prefix(s: Seq<(String, serde_json::Value)>, n: int, k: Seq<char>)
    requires
        0 <= n <= s.len(),
        key_index(s.take(n), k) >= 0,
    ensures
        key_index(s, k) == key_index(s.take(n), k),
    decreases s.len(),
{
    if n < s.len() {
        assert(s.drop_last().take(n) =~= s.take(n));
        lemma_key_index_prefix(s.drop_last(), n, k);
    } else {
        assert(s.take(n) =~= s);
    }
}

/// `key_index` finds `k` exactly when some entry of `s` has that name, and
/// what it finds has that name.
proof fn lemma_key_index_has(s: Seq<(String, serde_json::Value)>, k: Seq<char>)
    ensures
        (key_index(s, k) >= 0) == (exists|i: int| 0 <= i < s.len() && (#[trigger] s[i]).0@ == k),
        key_index(s, k) >= 0 ==> key_index(s, k) < s.len() && s[key_index(s, k)].0@ == k,
    decreases s.len(),
{
    if s.len() > 0 {
        let d = s.drop_last();
        lemma_key_index_has(d, k);
        if key_index(d, k) >= 0 {
            let i = key_index(d, k);
            assert(s[i] == d[i]);
        } else if s.last().0@ == k {
            assert(s[s.len() - 1].0@ == k);
        } else {
            if exists|i: int| 0 <= i < s.len() && (#[trigger] s[i]).0@ == k {
                let i = choose|i: int| 0 <= i < s.len() && (#[trigger] s[i]).0@ == k;
                assert(d[i] == s[i]);
            }
        }
    }
}

/// Entries with the same names, in the same order, give the same
/// `key_index`.
proof fn lemma_key_index_names(s: Seq<(String, serde_json::Value)>, p: Seq<(String, serde_json::Value)>, k: Seq<char>)
    requires
        s.len() == p.len(),
        forall|i: int| 0 <= i < s.len() ==> (#[trigger] s[i]).0@ == p[i].0@,
    ensures
        key_index(s, k) == key_index(p, k),
    decreases s.len(),
{
    if s.len() > 0 {
        lemma_key_index_names(s.drop_last(), p.drop_last(), k);
        assert(s.last() == s[s.len() - 1]);
    }
}

/// The value of the style named `k` in `s`: that of its first entry with
/// that name, if any.
pub open spec fn style_value(s: Seq<(String, serde_json::Value)>, k: Seq<char>) -> Option<serde_json::Value> {
    let i = key_index(s, k);
    if i >= 0 {
        Some(s[i].1)
    } else {
        None
    }
}

/// The value that the last entry named `k` of `t` gives, if any: what
/// setting the styles of `t` in turn leaves for `k`.
pub open spec fn last_value(t: Seq<(String, serde_json::Value)>, k: Seq<char>) -> Option<serde_json::Value>
    decreases t.len(),
{
    if t.len() == 0 {
        None
    } else if t.last().0@ == k {
        Some(t.last().1)
    } else {
        last_value(t.drop_last(), k)
    }
}

/// Setting style `k2` to `v` gives `k2` that value and leaves every other
/// style as it was.
proof fn lemma_put_value(m: Seq<(String, serde_json::Value)>, k2: String, v: serde_json::Value, k: Seq<char>)
    ensures
        k2@ == k ==> style_value(attrs_put(m, k2, v), k) == Some(v),
        k2@ != k ==> style_value(attrs_put(m, k2, v), k) == style_value(m, k),
{
    let p = attrs_put(m, k2, v);
    let i = key_index(m, k2@);
    lemma_key_index_has(m, k2@);
    lemma_key_index_has(m, k);
    if i >= 0 {
        assert forall|j: int| 0 <= j < m.len() implies (#[trigger] m[j]).0@ == p[j].0@ by {}
        lemma_key_index_names(m, p, k);
        if k2@ != k && key_index(m, k) >= 0 {
            assert(key_index(m, k) != i);
        }
    } else {
        assert(p.drop_last() =~= m);
    }
}

/// Setting the styles of `t` over `s` leaves each style named in `t` with
/// the value of its last entry there.
pub proof fn lemma_merge_value(s: Seq<(String, serde_json::Value)>, t: Seq<(String, serde_json::Value)>, k: Seq<char>)
    requires
        last_value(t, k) is Some,
    ensures
        style_value(attrs_merge(s, t), k) == last_value(t, k),
    decreases t.len(),
{
    let d = t.drop_last();
    if t.last().0@ == k {
        lemma_put_value(attrs_merge(s, d), t.last().0, t.last().1, k);
    } else {
        lemma_merge_value(s, d, k);
        lemma_put_value(attrs_merge(s, d), t.last().0, t.last().1, k);
    }
}

/// Whether `d` keeps a run on which it sets style `k` to `v`.
pub open spec fn retain_sets(d: DeltaItem, k: Seq<char>, v: serde_json::Value) -> bool {
    &&& d is Retain
    &&& match item_attrs(d) {
        Some(x) => last_value(x@, k) == Some(v),
        None => false,
    }
}

/// Whether `d` keeps or inserts a run that carries style `k` with value
/// `v`.
pub open spec fn carries(d: DeltaItem, k: Seq<char>, v: serde_json::Value) -> bool {
    &&& !(d is Delete)
    &&& match item_attrs(d) {
        Some(x) => style_value(x@, k) == Some(v),
        None => false,
    }
}

impl DeltaItem {
    /// Keeps `retain` units.
    pub fn retain(retain: usize) -> (d: Self)
        ensures
            d == (DeltaItem::Retain { retain, attributes: None }),
    {
        DeltaItem::Retain { retain, attributes: None }
    }

    /// Inserts `insert`, its length counted in units of `index_type`.
    pub fn insert(insert: String, index_type: IndexType) -> (d: Self)
        requires
            units_of(insert@, index_type) <= usize::MAX,
        ensures
            d == (DeltaItem::Insert {
                len: Some(units_of(insert@, index_type) as usize),
                insert,
                index_type: Some(index_type),
                attributes: None,
            }),
    {
        let len = match index_type {
            IndexType::Utf8 => insert.as_str().len(),
            IndexType::Utf16 => get_utf16_len(insert.as_str()),
        };
        DeltaItem::Insert { len: Some(len), insert, index_type: Some(index_type), attributes: None }
    }

    /// Deletes `delete` units.
    pub fn delete(delete: usize) -> (d: Self)
        ensures
            d == (DeltaItem::Delete { delete }),
    {
        DeltaItem::Delete { delete }
    }

    /// Keeps `retain` units, setting `attributes` on them.
    pub fn retain_with_attributes(retain: usize, attributes: Attributes) -> (d: Self)
        ensures
            d == (DeltaItem::Retain { retain, attributes: Some(attributes) }),
    {
        DeltaItem::Retain { retain, attributes: Some(attributes) }
    }

    /// Inserts `insert` with `attributes`, its length counted in units of
    /// `index_type`.
    pub fn insert_with_attributes(insert: String, index_type: IndexType, attributes: Attributes) -> (d:
        Self)
        requires
            units_of(insert@, index_type) <= usize::MAX,
        ensures
            d == (DeltaItem::Insert {
                len: Some(units_of(insert@, index_type) as usize),
                insert,
                index_type: Some(index_type),
                attributes: Some(attributes),
            }),
    {
        let len = match index_type {
            IndexType::Utf8 => insert.as_str().len(),
            IndexType::Utf16 => get_utf16_len(insert.as_str()),
        };
        DeltaItem::Insert {
            len: Some(len),
            insert,
            index_type: Some(index_type),
            attributes: Some(attributes),
        }
    }

    pub fn is_retain(&self) -> (b: bool)
        ensures
            b == (*self is Retain),
    {
        matches!(self, DeltaItem::Retain { .. })
    }

    pub fn is_insert(&self) -> (b: bool)
        ensures
            b == (*self is Insert),
    {
        matches!(self, DeltaItem::Insert { .. })
    }

    pub fn is_delete(&self) -> (b: bool)
        ensures
            b == (*self is Delete),
    {
        matches!(self, DeltaItem::Delete { .. })
    }

    /// The attributes of the item (none for a deletion).
    pub fn attributions(&self) -> (r: Option<&Attributes>)
        ensures
            r == match item_attrs(*self) {
                Some(a) => Some(&a),
                None => None::<&Attributes>,
            },
    {
        match self {
            DeltaItem::Retain { attributes, .. } => attributes.as_ref(),
            DeltaItem::Insert { attributes, .. } => attributes.as_ref(),
            DeltaItem::Delete { .. } => None,
        }
    }

    /// See [`item_len`].
    pub fn length(&self) -> (n: usize)
        requires
            item_len(*self) <= usize::MAX,
        ensures
            n == item_len(*self),
    {
        match self {
            DeltaItem::Retain { retain, .. } => *retain,
            DeltaItem::Insert { len, insert, .. } => match len {
                Some(l) => *l,
                None => get_utf16_len(insert.as_str()),
            },
            DeltaItem::Delete { delete } => *delete,
        }
    }

    /// An item that changes nothing: keeping or deleting nothing.
    pub fn should_remove(&self) -> (b: bool)
        ensures
            b == match *self {
                DeltaItem::Retain { retain, .. } => retain == 0,
                DeltaItem::Insert { .. } => false,
                DeltaItem::Delete { delete } => delete == 0,
            },
    {
        match self {
            DeltaItem::Retain { retain, .. } => *retain == 0,
            DeltaItem::Insert { .. } => false,
            DeltaItem::Delete { delete } => *delete == 0,
        }
    }

    /// Sets on the item (unless it is a deletion) each style of `next_op`,
    /// starting from no attributes when it had none.
    pub fn compose_meta(&mut self, next_op: &DeltaItem)
        ensures
            match (*old(self), *final(self)) {
                (DeltaItem::Delete { delete: a }, DeltaItem::Delete { delete: b }) => a == b,
                (
                    DeltaItem::Retain { retain: a, attributes: x },
                    DeltaItem::Retain { retain: b, attributes: Some(y) },
                ) => a == b && y@ == attrs_merge(
                    match x {
                        Some(x) => x@,
                        None => Seq::empty(),
                    },
                    match item_attrs(*next_op) {
                        Some(n) => n@,
                        None => Seq::empty(),
                    },
                ),
                (
                    DeltaItem::Insert { insert: i1, attributes: x, len: l1, index_type: t1 },
                    DeltaItem::Insert { insert: i2, attributes: Some(y), len: l2, index_type: t2 },
                ) => i1 == i2 && l1 == l2 && t1 == t2 && y@ == attrs_merge(
                    match x {
                        Some(x) => x@,
                        None => Seq::empty(),
                    },
                    match item_attrs(*next_op) {
                        Some(n) => n@,
                        None => Seq::empty(),
                    },
                ),
                _ => false,
            },
    {
        let attributes = match self {
            DeltaItem::Retain { attributes, .. } => attributes,
            DeltaItem::Insert { attributes, .. } => attributes,
            DeltaItem::Delete { .. } => {
                return ;
            },
        };
        let mut attrs: Attributes = match attributes.take() {
            Some(a) => a,
            None => Vec::new(),
        };
        let ghost base = attrs@;
        if let Some(more) = next_op.attributions() {
            let mut i: usize = 0;
            while i < more.len()
                invariant
                    0 <= i <= more@.len(),
                    attrs@ == attrs_merge(base, more@.take(i as int)),
                decreases more@.len() - i,
            {
                proof {
                    assert(more@.take(i as int + 1).drop_last() =~= more@.take(i as int));
                }
                let k = more[i].0.clone();
                let v = json_clone(&more[i].1);
                match find_key(&attrs, k.as_str()) {
                    Some(at) => attrs.set(at, (k, v)),
                    None => attrs.push((k, v)),
                }
                i = i + 1;
            }
            proof {
                assert(more@.take(more@.len() as int) =~= more@);
            }
        } else {
            proof {
                assert(attrs_merge(base, Seq::empty()) == base);
            }
        }
        *attributes = Some(attrs);
    }
}


/// Two optional attribute lists holding the same styles, in the same order.
pub open spec fn same_attrs(x: Option<Attributes>, y: Option<Attributes>) -> bool {
    match (x, y) {
        (None, None) => true,
        (Some(a), Some(b)) => a@ == b@,
        _ => false,
    }
}

/// A copy of the attributes.
fn clone_attrs(a: &Option<Attributes>) -> (r: Option<Attributes>)
    ensures
        same_attrs(r, *a),
{
    match a {
        None => None,
        Some(v) => {
            let mut out: Attributes = Vec::new();
            let mut i: usize = 0;
            while i < v.len()
                invariant
                    0 <= i <= v@.len(),
                    out@ == v@.take(i as int),
                decreases v@.len() - i,
            {
                out.push((v[i].0.clone(), json_clone(&v[i].1)));
                proof {
                    assert(v@.take(i as int + 1) =~= v@.take(i as int).push(v@[i as int]));
                }
                i = i + 1;
            }
            proof {
                assert(v@.take(v@.len() as int) =~= v@);
            }
            Some(out)
        },
    }
}

/// Where an insertion of `s` is split to take its first `length` units: at
/// byte `length` when it counts UTF-8, else after its `length`-th UTF-16
/// unit.
pub open spec fn split_point(s: Seq<char>, length: int, t: Option<IndexType>) -> int {
    match t {
        Some(IndexType::Utf8) => length,
        _ => utf8_offset_of_utf16(s, length) as int,
    }
}

/// The string of the bytes `b[start..end]` of `s` (on character
/// boundaries).
fn split_str(s: &str, at: usize) -> (r: (String, String))
    requires
        at <= encode_utf8(s@).len(),
        is_char_boundary(encode_utf8(s@), at as int),
    ensures
        encode_utf8(r.0@) == encode_utf8(s@).take(at as int),
        encode_utf8(r.1@) == encode_utf8(s@).skip(at as int),
{
    let (a, b) = s.split_at(at);
    proof {
        assert(encode_utf8(s@).subrange(0, at as int) =~= encode_utf8(s@).take(at as int));
        assert(encode_utf8(s@).subrange(at as int, encode_utf8(s@).len() as int) =~= encode_utf8(
            s@,
        ).skip(at as int));
    }
    (a.to_owned(), b.to_owned())
}

/// Whether the first `length` units of `d` can be split off: no more than
/// it holds, and for an insertion counted in bytes, on a character boundary.
pub open spec fn take_ok(d: DeltaItem, length: int) -> bool {
    match d {
        DeltaItem::Retain { retain, .. } => length <= retain,
        DeltaItem::Delete { delete } => length <= delete,
        DeltaItem::Insert { insert, len, index_type, .. } => match index_type {
            Some(IndexType::Utf8) => length <= encode_utf8(insert@).len() && is_char_boundary(
                encode_utf8(insert@),
                length,
            ),
            _ => match len {
                Some(l) => length <= l,
                None => true,
            },
        },
    }
}

impl DeltaItem {
    /// Splits off the first `length` units of the item and returns them with
    /// the item's attributes; the item keeps the rest. An insertion is split
    /// at [`split_point`]; the part returned has length `length`, the rest
    /// its remaining length.
    pub fn take(&mut self, length: usize) -> (r: Self)
        requires
            take_ok(*old(self), length as int),
        ensures
            match (*old(self), *final(self), r) {
                (
                    DeltaItem::Retain { retain: a, attributes: x },
                    DeltaItem::Retain { retain: b, attributes: y },
                    DeltaItem::Retain { retain: c, attributes: z },
                ) => b == a - length && c == length && y == x && same_attrs(z, x),
                (
                    DeltaItem::Delete { delete: a },
                    DeltaItem::Delete { delete: b },
                    DeltaItem::Delete { delete: c },
                ) => b == a - length && c == length,
                (
                    DeltaItem::Insert { insert: s, attributes: x, len: l, index_type: t },
                    DeltaItem::Insert { insert: s2, attributes: x2, len: l2, index_type: t2 },
                    DeltaItem::Insert { insert: h, attributes: xr, len: lr, index_type: tr },
                ) => {
                    let p = split_point(s@, length as int, t);
                    &&& 0 <= p <= encode_utf8(s@).len()
                    &&& encode_utf8(h@) == encode_utf8(s@).take(p)
                    &&& encode_utf8(s2@) == encode_utf8(s@).skip(p)
                    &&& x2 == x
                    &&& same_attrs(xr, x)
                    &&& t2 == t
                    &&& tr == t
                    &&& lr == Some(length)
                    &&& l2 == match t {
                        Some(IndexType::Utf8) => Some((encode_utf8(s@).len() - p) as usize),
                        _ => match l {
                            Some(n) => Some((n - length) as usize),
                            None => Some(utf16_len_of(s2@) as usize),
                        },
                    }
                },
                _ => false,
            },
    {
        match self {
            DeltaItem::Insert { insert, attributes, len, index_type } => {
                proof {
                    encode_utf8_valid_utf8(insert@);
                    encode_utf8_decode_utf8(insert@);
                }
                let is_utf8 = match index_type {
                    Some(IndexType::Utf8) => true,
                    _ => false,
                };
                let at = if is_utf8 {
                    length
                } else {
                    proof {
                        crate::rich_text::lemma_offset_boundary(encode_utf8(insert@), length as int);
                    }
                    utf16_to_utf8(insert.as_str().as_bytes(), length)
                };
                let (head, rest) = split_str(insert.as_str(), at);
                let a = clone_attrs(attributes);
                *insert = rest;
                if is_utf8 {
                    *len = Some(insert.as_str().len());
                } else {
                    match len {
                        Some(n) => {
                            *len = Some(*n - length);
                        },
                        None => {
                            *len = Some(get_utf16_len(insert.as_str()));
                        },
                    }
                }
                DeltaItem::Insert { insert: head, len: Some(length), index_type: *index_type, attributes: a }
            },
            DeltaItem::Retain { retain, attributes } => {
                *retain = *retain - length;
                DeltaItem::Retain { retain: length, attributes: clone_attrs(attributes) }
            },
            DeltaItem::Delete { delete } => {
                *delete = *delete - length;
                DeltaItem::Delete { delete: length }
            },
        }
    }
}

/// The delta without a last item that keeps a run with no attributes (which
/// changes nothing).
pub fn chop(vec: Vec<DeltaItem>) -> (r: Vec<DeltaItem>)
    ensures
        r@ == if vec@.len() > 0 && vec@.last() is Retain && item_attrs(vec@.last()) is None {
            vec@.drop_last()
        } else {
            vec@
        },
{
    let mut vec = vec;
    let n = vec.len();
    if n > 0 {
        let drop = match &vec[n - 1] {
            DeltaItem::Retain { attributes: None, .. } => true,
            _ => false,
        };
        if drop {
            vec.pop();
        }
    }
    vec
}

/// Whether [`DeltaItem::take`] can split off `length` units of `d`.
fn can_take(d: &DeltaItem, length: usize) -> (b: bool)
    ensures
        b == take_ok(*d, length as int),
{
    match d {
        DeltaItem::Retain { retain, .. } => length <= *retain,
        DeltaItem::Delete { delete } => length <= *delete,
        DeltaItem::Insert { insert, len, index_type, .. } => match index_type {
            Some(IndexType::Utf8) => {
                let st = insert.as_str();
                proof {
                    assert(st@ == insert@);
                    encode_utf8_valid_utf8(insert@);
                }
                st.is_char_boundary(length)
            },
            _ => match len {
                Some(l) => length <= *l,
                None => true,
            },
        },
    }
}

/// The length of an item (see [`item_len`]).
fn len_of(d: &DeltaItem) -> (n: usize)
    ensures
        n == item_len(*d),
{
    match d {
        DeltaItem::Insert { insert, len: None, .. } => get_utf16_len(insert.as_str()),
        _ => d.length(),
    }
}

/// The last item taken off whole, or cut when it is no insertion: each
/// insertion of `a` is one of `b` or the item taken.
proof fn lemma_inserts_kept(a: Seq<DeltaItem>, b: Seq<DeltaItem>, r: DeltaItem, d: DeltaItem)
    requires
        a.len() > 0,
        b.len() + 1 == a.len() || b.len() == a.len(),
        forall|i: int| 0 <= i < a.len() - 1 ==> b[i] == a[i],
        b.len() + 1 == a.len() ==> r == a.last(),
        b.len() == a.len() ==> !(a.last() is Insert),
        d is Insert,
        exists|i: int| 0 <= i < a.len() && #[trigger] a[i] == d,
    ensures
        (exists|i: int| 0 <= i < b.len() && #[trigger] b[i] == d) || r == d,
{
    let i = choose|i: int| 0 <= i < a.len() && #[trigger] a[i] == d;
    if i < a.len() - 1 {
        assert(b[i] == d);
    }
}

/// The last item taken off whole, or cut with a rest that keeps its
/// attributes: a style set by a retain of `a` is set by one of `b` or by the
/// item taken.
proof fn lemma_keys_kept(a: Seq<DeltaItem>, b: Seq<DeltaItem>, r: DeltaItem, k: Seq<char>, v: serde_json::Value)
    requires
        a.len() > 0,
        b.len() + 1 == a.len() || b.len() == a.len(),
        forall|i: int| 0 <= i < a.len() - 1 ==> b[i] == a[i],
        b.len() + 1 == a.len() ==> r == a.last(),
        b.len() == a.len() && retain_sets(a.last(), k, v) ==> retain_sets(b.last(), k, v),
        exists|i: int| 0 <= i < a.len() && retain_sets(#[trigger] a[i], k, v),
    ensures
        (exists|i: int| 0 <= i < b.len() && retain_sets(#[trigger] b[i], k, v)) || retain_sets(r, k, v),
{
    let i = choose|i: int| 0 <= i < a.len() && retain_sets(#[trigger] a[i], k, v);
    if i < a.len() - 1 {
        assert(retain_sets(b[i], k, v));
    } else if b.len() == a.len() {
        assert(retain_sets(b[b.len() - 1], k, v));
    }
}

/// Whether some retain among `ds` sets style `k`.
pub open spec fn sets_in(ds: Seq<DeltaItem>, k: Seq<char>, v: serde_json::Value) -> bool {
    exists|i: int| 0 <= i < ds.len() && retain_sets(#[trigger] ds[i], k, v)
}

/// Whether some item among `ds` keeps or inserts a run carrying style `k`.
pub open spec fn carried_in(ds: Seq<DeltaItem>, k: Seq<char>, v: serde_json::Value) -> bool {
    exists|j: int| 0 <= j < ds.len() && carries(#[trigger] ds[j], k, v)
}

/// Whether `d` is an insertion among `ds`.
pub open spec fn inserts_in(ds: Seq<DeltaItem>, d: DeltaItem) -> bool {
    d is Insert && exists|i: int| 0 <= i < ds.len() && #[trigger] ds[i] == d
}

/// An insertion among items stays there when items are added after them,
/// and when a trailing retain without attributes is dropped.
proof fn lemma_inserts_extend(a: Seq<DeltaItem>, b: Seq<DeltaItem>, d: DeltaItem)
    requires
        inserts_in(a, d),
        a.len() <= b.len() || b == a.drop_last() && !(a.last() is Insert),
        forall|j: int| 0 <= j < a.len() && j < b.len() ==> b[j] == a[j],
    ensures
        inserts_in(b, d),
{
    let j = choose|j: int| 0 <= j < a.len() && #[trigger] a[j] == d;
    if j < b.len() {
        assert(b[j] == d);
    }
}

/// A style carried by an item stays carried when items are added after it.
proof fn lemma_carried_extend(a: Seq<DeltaItem>, b: Seq<DeltaItem>, k: Seq<char>, v: serde_json::Value)
    requires
        carried_in(a, k, v),
        a.len() <= b.len(),
        forall|j: int| 0 <= j < a.len() ==> b[j] == a[j],
    ensures
        carried_in(b, k, v),
{
    let j = choose|j: int| 0 <= j < a.len() && carries(#[trigger] a[j], k, v);
    assert(carries(b[j], k, v));
}

/// Dropping a trailing retain without attributes loses no carried style.
proof fn lemma_carried_chop(a: Seq<DeltaItem>, b: Seq<DeltaItem>, k: Seq<char>, v: serde_json::Value)
    requires
        carried_in(a, k, v),
        b == if a.len() > 0 && a.last() is Retain && item_attrs(a.last()) is None {
            a.drop_last()
        } else {
            a
        },
    ensures
        carried_in(b, k, v),
{
    let j = choose|j: int| 0 <= j < a.len() && carries(#[trigger] a[j], k, v);
    if b.len() < a.len() && j == a.len() - 1 {
        assert(false);
    } else {
        assert(carries(b[j], k, v));
    }
}

/// The items of a delta, taken from the front, possibly a part at a time.
pub struct DeltaIterator {
    /// The items left, the next one last.
    ops: Vec<DeltaItem>,
}

impl DeltaIterator {
    /// The number of items left.
    pub closed spec fn left(&self) -> nat {
        self.ops@.len()
    }

    /// Whether a retain left sets style `k`.
    pub closed spec fn sets_key(&self, k: Seq<char>, v: serde_json::Value) -> bool {
        exists|i: int| 0 <= i < self.ops@.len() && retain_sets(#[trigger] self.ops@[i], k, v)
    }

    /// Whether the next item is a deletion.
    pub closed spec fn next_deletes(&self) -> bool {
        self.ops@.len() > 0 && self.ops@.last() is Delete
    }

    /// Whether the next item is an insertion.
    pub closed spec fn next_inserts(&self) -> bool {
        self.ops@.len() > 0 && self.ops@.last() is Insert
    }

    /// Whether insertion `d` is one of the items left.
    pub closed spec fn holds_insert(&self, d: DeltaItem) -> bool {
        d is Insert && exists|i: int| 0 <= i < self.ops@.len() && #[trigger] self.ops@[i] == d
    }

    /// The attributes of the next item.
    pub closed spec fn next_attrs(&self) -> Option<Attributes> {
        item_attrs(self.ops@.last())
    }

    /// An iterator over the items of `ops`.
    pub fn new(ops: Vec<DeltaItem>) -> (it: Self)
        ensures
            it.left() == ops@.len(),
            forall|d: DeltaItem| #![trigger it.holds_insert(d)] it.holds_insert(d) == inserts_in(ops@, d),
            forall|k: Seq<char>, v: serde_json::Value|
                #![trigger it.sets_key(k, v)]
                it.sets_key(k, v) == exists|i: int| 0 <= i < ops@.len() && retain_sets(#[trigger] ops@[i], k, v),
    {
        let ghost orig = ops@;
        let mut ops = ops;
        let mut rev: Vec<DeltaItem> = Vec::new();
        let n = ops.len();
        while ops.len() > 0
            invariant
                rev@.len() + ops@.len() == n,
                n == orig.len(),
                ops@ == orig.take(ops@.len() as int),
                forall|j: int| 0 <= j < rev@.len() ==> #[trigger] rev@[j] == orig[n - 1 - j],
            decreases ops@.len(),
        {
            let d = ops.pop().unwrap();
            rev.push(d);
        }
        let it = DeltaIterator { ops: rev };
        proof {
            assert forall|k: Seq<char>, v: serde_json::Value| #[trigger] it.sets_key(k, v) == exists|i: int|
                0 <= i < orig.len() && retain_sets(#[trigger] orig[i], k, v) by {
                if it.sets_key(k, v) {
                    let j = choose|j: int| 0 <= j < rev@.len() && retain_sets(#[trigger] rev@[j], k, v);
                    assert(retain_sets(orig[n - 1 - j], k, v));
                }
                if exists|i: int| 0 <= i < orig.len() && retain_sets(#[trigger] orig[i], k, v) {
                    let i = choose|i: int| 0 <= i < orig.len() && retain_sets(#[trigger] orig[i], k, v);
                    assert(rev@[n - 1 - i] == orig[i]);
                    assert(retain_sets(it.ops@[n - 1 - i], k, v));
                }
            }
            assert forall|d: DeltaItem| #[trigger] it.holds_insert(d) == inserts_in(orig, d) by {
                if it.holds_insert(d) {
                    let j = choose|j: int| 0 <= j < rev@.len() && #[trigger] rev@[j] == d;
                    assert(orig[n - 1 - j] == d);
                }
                if inserts_in(orig, d) {
                    let i = choose|i: int| 0 <= i < orig.len() && #[trigger] orig[i] == d;
                    assert(rev@[n - 1 - i] == orig[i]);
                    assert(it.ops@[n - 1 - i] == d);
                }
            }
        }
        it
    }

    /// Whether an item is left.
    pub fn has_next(&self) -> (b: bool)
        ensures
            b == (self.left() > 0),
    {
        self.ops.len() > 0
    }

    /// The length of the next item, or `usize::MAX` when none is left.
    pub fn peek_length(&self) -> (n: usize)
        ensures
            self.left() == 0 ==> n == usize::MAX,
    {
        let n = self.ops.len();
        if n == 0 {
            usize::MAX
        } else {
            len_of(&self.ops[n - 1])
        }
    }

    /// Whether the next item is an insertion.
    pub fn peek_is_insert(&self) -> (b: bool)
        ensures
            b ==> self.left() > 0,
            b == self.next_inserts(),
    {
        let n = self.ops.len();
        n > 0 && self.ops[n - 1].is_insert()
    }

    /// Whether the next item is a deletion.
    pub fn peek_is_delete(&self) -> (b: bool)
        ensures
            b ==> self.left() > 0,
            b == self.next_deletes(),
    {
        let n = self.ops.len();
        n > 0 && self.ops[n - 1].is_delete()
    }

    /// The next item, or its first `len` units when it is longer (a part of
    /// an insertion counted in bytes that would cut a character is not
    /// taken: the whole item is); a retain of everything when none is left.
    pub fn next(&mut self, len: Option<usize>) -> (r: DeltaItem)
        ensures
            old(self).left() == 0 ==> final(self).left() == 0,
            old(self).left() > 0 ==> final(self).left() == old(self).left() || final(self).left()
                == old(self).left() - 1,
            old(self).left() > 0 && len is None ==> final(self).left() == old(self).left() - 1,
            forall|k: Seq<char>, v: serde_json::Value|
                #![trigger final(self).sets_key(k, v)]
                old(self).sets_key(k, v) ==> final(self).sets_key(k, v) || retain_sets(r, k, v),
            !old(self).next_deletes() ==> !(r is Delete),
            old(self).next_inserts() ==> r is Insert,
            !old(self).next_inserts() ==> !(r is Insert),
            old(self).left() > 0 ==> same_attrs(item_attrs(r), old(self).next_attrs()),
            forall|d: DeltaItem|
                #![trigger final(self).holds_insert(d)]
                old(self).holds_insert(d) && (len is None || !old(self).next_inserts()) ==> final(self).holds_insert(d)
                    || r == d,
    {
        let ghost o = self.ops@;
        let n = self.ops.len();
        if n == 0 {
            return DeltaItem::Retain { retain: usize::MAX, attributes: None };
        }
        let op_length = len_of(&self.ops[n - 1]);
        match len {
            Some(length) => {
                if length < op_length && can_take(&self.ops[n - 1], length) {
                    let mut last = self.ops.pop().unwrap();
                    let r = last.take(length);
                    self.ops.push(last);
                    proof {
                        assert forall|k: Seq<char>, v: serde_json::Value| #[trigger] old(self).sets_key(k, v) implies self.sets_key(k, v)
                            || retain_sets(r, k, v) by {
                            lemma_keys_kept(o, self.ops@, r, k, v);
                        }
                        assert forall|d: DeltaItem| #[trigger] old(self).holds_insert(d) && (len is None || !old(self).next_inserts()) implies self.holds_insert(d) || r == d by {
                            lemma_inserts_kept(o, self.ops@, r, d);
                        }
                    }
                    return r;
                }
            },
            None => {},
        }
        let r = self.ops.pop().unwrap();
        proof {
            assert forall|k: Seq<char>, v: serde_json::Value| #[trigger] old(self).sets_key(k, v) implies self.sets_key(k, v) || retain_sets(r, k, v) by {
                lemma_keys_kept(o, self.ops@, r, k, v);
            }
            assert forall|d: DeltaItem| #[trigger] old(self).holds_insert(d) && (len is None || !old(self).next_inserts()) implies self.holds_insert(d) || r == d by {
                lemma_inserts_kept(o, self.ops@, r, d);
            }
        }
        r
    }

    /// The next `len` units (see [`DeltaIterator::next`]); when none is
    /// left, a retain as long as `other` with its attributes.
    fn next_with_ref(&mut self, len: usize, other: &DeltaItem) -> (r: DeltaItem)
        ensures
            old(self).left() == 0 ==> final(self).left() == 0,
            old(self).left() > 0 ==> final(self).left() == old(self).left() || final(self).left()
                == old(self).left() - 1,
            old(self).left() > 0 && len >= usize::MAX ==> final(self).left() == old(self).left() - 1,
            forall|k: Seq<char>, v: serde_json::Value|
                #![trigger final(self).sets_key(k, v)]
                old(self).sets_key(k, v) ==> final(self).sets_key(k, v) || retain_sets(r, k, v),
            !old(self).next_deletes() ==> !(r is Delete),
            old(self).left() > 0 ==> same_attrs(item_attrs(r), old(self).next_attrs()),
            forall|d: DeltaItem|
                #![trigger final(self).holds_insert(d)]
                old(self).holds_insert(d) && !old(self).next_inserts() ==> final(self).holds_insert(d),
            !old(self).next_inserts() ==> !(r is Insert),
    {
        let ghost o = self.ops@;
        let n = self.ops.len();
        if n == 0 {
            let attributes = match other.attributions() {
                Some(a) => Some(clone_attr_list(a)),
                None => None,
            };
            return DeltaItem::Retain { retain: len_of(other), attributes };
        }
        let op_length = len_of(&self.ops[n - 1]);
        if len < op_length && can_take(&self.ops[n - 1], len) {
            let mut last = self.ops.pop().unwrap();
            let r = last.take(len);
            self.ops.push(last);
            proof {
                assert forall|k: Seq<char>, v: serde_json::Value| #[trigger] old(self).sets_key(k, v) implies self.sets_key(k, v)
                    || retain_sets(r, k, v) by {
                    lemma_keys_kept(o, self.ops@, r, k, v);
                }
                assert forall|d: DeltaItem| #[trigger] old(self).holds_insert(d) && !old(self).next_inserts() implies self.holds_insert(d) by {
                    lemma_inserts_kept(o, self.ops@, r, d);
                    assert(!(r is Insert));
                }
            }
            return r;
        }
        let r = self.ops.pop().unwrap();
        proof {
            assert forall|k: Seq<char>, v: serde_json::Value| #[trigger] old(self).sets_key(k, v) implies self.sets_key(k, v) || retain_sets(r, k, v) by {
                lemma_keys_kept(o, self.ops@, r, k, v);
            }
            assert forall|d: DeltaItem| #[trigger] old(self).holds_insert(d) && !old(self).next_inserts() implies self.holds_insert(d) by {
                lemma_inserts_kept(o, self.ops@, r, d);
                assert(!(r is Insert));
            }
        }
        r
    }

    /// The next items of both, cut to the same length: the shorter is taken
    /// whole, the same length of the other.
    pub fn next_pair(&mut self, other: &mut Self) -> (r: (DeltaItem, DeltaItem))
        requires
            old(self).left() > 0 || old(other).left() > 0,
        ensures
            final(self).left() + final(other).left() < old(self).left() + old(other).left(),
            forall|k: Seq<char>, v: serde_json::Value|
                #![trigger final(other).sets_key(k, v)]
                old(other).sets_key(k, v) ==> final(other).sets_key(k, v) || retain_sets(r.1, k, v),
            !old(self).next_deletes() ==> !(r.0 is Delete),
            forall|d: DeltaItem|
                #![trigger final(other).holds_insert(d)]
                old(other).holds_insert(d) && !old(other).next_inserts() ==> final(other).holds_insert(d),
    {
        let self_len = self.peek_length();
        let other_len = other.peek_length();
        if self_len > other_len {
            let other_op = other.next(None);
            let this_op = self.next_with_ref(other_len, &other_op);
            (this_op, other_op)
        } else {
            if self.has_next() {
                let this_op = self.next(None);
                let other_op = other.next_with_ref(self_len, &this_op);
                (this_op, other_op)
            } else {
                let this_op = self.next(None);
                let other_op = other.next_with_ref(usize::MAX, &this_op);
                (this_op, other_op)
            }
        }
    }

    /// The items left, in order.
    pub fn rest(self) -> (r: Vec<DeltaItem>)
        ensures
            r@.len() == self.left(),
    {
        let mut ops = self.ops;
        let mut out: Vec<DeltaItem> = Vec::new();
        let n = ops.len();
        while ops.len() > 0
            invariant
                out@.len() + ops@.len() == n,
            decreases ops@.len(),
        {
            let d = ops.pop().unwrap();
            out.push(d);
        }
        out
    }
}

/// A copy of an attribute list.
fn clone_attr_list(a: &Attributes) -> (r: Attributes) {
    let mut out: Attributes = Vec::new();
    let mut i: usize = 0;
    while i < a.len()
        decreases a.len() - i,
    {
        out.push((a[i].0.clone(), json_clone(&a[i].1)));
        i = i + 1;
    }
    out
}

/// The delta that applying `delta_a` and then `delta_b` amounts to: the
/// items of `delta_b` are laid over those of `delta_a` unit by unit (an
/// insertion of `delta_b` is kept, a deletion of `delta_a` is kept, a retain
/// of `delta_b` sets its attributes on what `delta_a` keeps or inserts, a
/// deletion of `delta_b` removes what `delta_a` inserts or deletes what it
/// keeps); a trailing retain without attributes is dropped. So every style
/// that a retain of `delta_b` sets is carried, with the value that retain
/// gives it, by an item of the result that keeps or inserts text; and every
/// insertion of `delta_b` stands in the result as it is.
pub fn compose(delta_a: Vec<DeltaItem>, delta_b: Vec<DeltaItem>) -> (r: Vec<DeltaItem>)
    ensures
        forall|k: Seq<char>, v: serde_json::Value| #[trigger] sets_in(delta_b@, k, v) ==> carried_in(r@, k, v),
        forall|d: DeltaItem| #[trigger] inserts_in(delta_b@, d) ==> inserts_in(r@, d),
{
    let ghost b = delta_b@;
    let mut this_iter = DeltaIterator::new(delta_a);
    let mut other_iter = DeltaIterator::new(delta_b);
    let mut ops: Vec<DeltaItem> = Vec::new();
    let on = other_iter.ops.len();
    if on > 0 {
        let first_other_len = len_of(&other_iter.ops[on - 1]);
        let first_is_plain_retain = match &other_iter.ops[on - 1] {
            DeltaItem::Retain { attributes: None, .. } => true,
            _ => false,
        };
        if first_is_plain_retain {
            let ghost g = other_iter.ops@;
            let mut first_left = first_other_len;
            let mut go = true;
            while go && this_iter.ops.len() > 0
                invariant
                    first_left <= first_other_len,
                    other_iter.ops@ == g,
                    forall|d: DeltaItem| #[trigger] inserts_in(b, d) ==> other_iter.holds_insert(d),
                    g.len() == on,
                    on > 0,
                decreases this_iter.ops@.len(), if go { 1int } else { 0int },
            {
                let tn = this_iter.ops.len();
                let is_ins = this_iter.ops[tn - 1].is_insert();
                let l = len_of(&this_iter.ops[tn - 1]);
                if is_ins && l <= first_left {
                    first_left = first_left - l;
                    let mut op = this_iter.next(None);
                    op.compose_meta(&other_iter.ops[on - 1]);
                    ops.push(op);
                } else {
                    go = false;
                }
            }
            if first_other_len - first_left > 0 {
                let ghost before = other_iter;
                let d = other_iter.next(Some(first_other_len - first_left));
                proof {
                    assert(before.next_attrs() is None);
                    assert forall|k: Seq<char>, v: serde_json::Value| #[trigger] before.sets_key(k, v) implies other_iter.sets_key(k, v) by {
                        assert(!retain_sets(d, k, v));
                    }
                    assert(!before.next_inserts());
                }
            }
        }
    }
    let mut delta = ops;
    while this_iter.has_next() || other_iter.has_next()
        invariant
            b == delta_b@,
            forall|k: Seq<char>, v: serde_json::Value| #[trigger] sets_in(b, k, v) ==> other_iter.sets_key(k, v) || carried_in(delta@, k, v),
            forall|d: DeltaItem| #[trigger] inserts_in(b, d) ==> other_iter.holds_insert(d) || inserts_in(delta@, d),
        decreases this_iter.left() + other_iter.left(),
    {
        let ghost d0 = delta@;
        if other_iter.peek_is_insert() {
            let d = other_iter.next(None);
            delta.push(d);
            proof {
                assert forall|k: Seq<char>, v: serde_json::Value| #[trigger] sets_in(b, k, v) implies other_iter.sets_key(k, v)
                    || carried_in(delta@, k, v) by {
                    if carried_in(d0, k, v) {
                        lemma_carried_extend(d0, delta@, k, v);
                    } else {
                        assert(!retain_sets(d, k, v));
                    }
                }
                assert forall|e: DeltaItem| #[trigger] inserts_in(b, e) implies other_iter.holds_insert(e) || inserts_in(delta@, e) by {
                    if inserts_in(d0, e) {
                        lemma_inserts_extend(d0, delta@, e);
                    } else if !other_iter.holds_insert(e) {
                        assert(delta@[d0.len() as int] == e);
                    }
                }
            }
        } else if this_iter.peek_is_delete() {
            delta.push(this_iter.next(None));
            proof {
                assert forall|k: Seq<char>, v: serde_json::Value| #[trigger] sets_in(b, k, v) implies other_iter.sets_key(k, v)
                    || carried_in(delta@, k, v) by {
                    if carried_in(d0, k, v) {
                        lemma_carried_extend(d0, delta@, k, v);
                    }
                }
                assert forall|e: DeltaItem| #[trigger] inserts_in(b, e) implies other_iter.holds_insert(e) || inserts_in(delta@, e) by {
                    if inserts_in(d0, e) {
                        lemma_inserts_extend(d0, delta@, e);
                    }
                }
            }
        } else {
            let ghost o0 = other_iter;
            let (mut this_op, mut other_op) = this_iter.next_pair(&mut other_iter);
            if other_op.is_retain() {
                let ghost t0 = this_op;
                this_op.compose_meta(&other_op);
                delta.push(this_op);
                proof {
                    assert forall|k: Seq<char>, v: serde_json::Value| #[trigger] sets_in(b, k, v) implies other_iter.sets_key(k, v)
                        || carried_in(delta@, k, v) by {
                        if carried_in(d0, k, v) {
                            lemma_carried_extend(d0, delta@, k, v);
                        } else if !other_iter.sets_key(k, v) {
                            assert(o0.sets_key(k, v));
                            assert(retain_sets(other_op, k, v));
                            let n = item_attrs(other_op).unwrap();
                            let base = match item_attrs(t0) {
                                Some(x) => x@,
                                None => Seq::empty(),
                            };
                            lemma_merge_value(base, n@, k);
                            assert(carries(delta@[d0.len() as int], k, v));
                        }
                    }
                    assert forall|e: DeltaItem| #[trigger] inserts_in(b, e) implies other_iter.holds_insert(e) || inserts_in(delta@, e) by {
                        if inserts_in(d0, e) {
                            lemma_inserts_extend(d0, delta@, e);
                        }
                    }
                }
                if !other_iter.has_next() {
                    let ghost d1 = delta@;
                    let mut rest = this_iter.rest();
                    delta.append(&mut rest);
                    let r = chop(delta);
                    proof {
                        assert forall|k: Seq<char>, v: serde_json::Value| #[trigger] sets_in(b, k, v) implies carried_in(r@, k, v) by {
                            assert(!other_iter.sets_key(k, v));
                            lemma_carried_extend(d1, delta@, k, v);
                            lemma_carried_chop(delta@, r@, k, v);
                        }
                        assert forall|e: DeltaItem| #[trigger] inserts_in(b, e) implies inserts_in(r@, e) by {
                            assert(!other_iter.holds_insert(e));
                            lemma_inserts_extend(d1, delta@, e);
                            lemma_inserts_extend(delta@, r@, e);
                        }
                    }
                    return r;
                }
            } else {
                if other_op.is_delete() && this_op.is_retain() {
                    other_op.compose_meta(&this_op);
                    delta.push(other_op);
                }
                proof {
                    assert forall|k: Seq<char>, v: serde_json::Value| #[trigger] sets_in(b, k, v) implies other_iter.sets_key(k, v)
                        || carried_in(delta@, k, v) by {
                        if carried_in(d0, k, v) {
                            lemma_carried_extend(d0, delta@, k, v);
                        }
                    }
                    assert forall|e: DeltaItem| #[trigger] inserts_in(b, e) implies other_iter.holds_insert(e) || inserts_in(delta@, e) by {
                        if inserts_in(d0, e) {
                            lemma_inserts_extend(d0, delta@, e);
                        }
                    }
                }
            }
        }
    }
    let r = chop(delta);
    proof {
        assert forall|k: Seq<char>, v: serde_json::Value| #[trigger] sets_in(b, k, v) implies carried_in(r@, k, v) by {
            assert(!other_iter.sets_key(k, v));
            lemma_carried_chop(delta@, r@, k, v);
        }
        assert forall|e: DeltaItem| #[trigger] inserts_in(b, e) implies inserts_in(r@, e) by {
            assert(!other_iter.holds_insert(e));
            lemma_inserts_extend(delta@, r@, e);
        }
    }
    r
}

} // verus!
