//! The columnar layout of exported operations: the operations of each peer,
//! one after the other, with their parts spread over one column per kind
//! (insertions, deletions, annotations), peers and strings stored once and
//! referred to by index, and the inserted text kept as one byte string
//! (gzip-compressed when long).
//!
//! Turning the layout into bytes and back is the serialiser's job; this
//! module builds the layout from the operations and the operations from the
//! layout.
use vstd::prelude::*;

use append_only_bytes::{AppendOnlyBytes, BytesSlice};
use fxhash::FxHashMap;

use crate::bytes::{bytes_as_slice, slice_bytes};
use crate::error::Error;
use crate::fx::{fx_map_get, fx_map_keys};
use crate::op::{is_run, op_len, DeleteOp, Op, OpContent, TextInsertOp};
use crate::{Anchor, AnchorRange, AnchorType, Annotation, Behavior, ClientID, OpID};
use std::io::{Read, Write};
use std::sync::Arc;

verus! {

broadcast use vstd::seq_lib::group_seq_properties;

/// Texts longer than this many bytes are compressed.
pub const COMPRESS_THRESHOLD: usize = 1024;

/// One operation: its lamport timestamp and its kind.
#[derive(Debug, Clone, Copy, PartialEq, Eq, Structural)]
pub struct OpEncoding {
    pub lamport: u32,
    pub type_: u8,
}

/// An insertion: its length and its origins (a peer index of `u32::MAX` for
/// a missing origin).
#[derive(Debug, Clone, Copy, PartialEq, Eq, Structural)]
pub struct InsertEncoding {
    pub len: u32,
    pub left_client: u32,
    pub left_counter: u32,
    pub right_client: u32,
    pub right_counter: u32,
}

/// A deletion.
#[derive(Debug, Clone, Copy, PartialEq, Eq, Structural)]
pub struct DeleteEncoding {
    pub start_client: u32,
    pub start_counter: u32,
    pub len: i32,
}

/// An annotation; its type and its JSON value are indices into the strings.
#[derive(Debug, Clone, Copy, PartialEq, Eq, Structural)]
pub struct AnnEncoding {
    pub start: Option<OpID>,
    pub is_start_before_anchor: bool,
    pub end: Option<OpID>,
    pub is_end_before_anchor: bool,
    pub behavior: Behavior,
    pub type_: u32,
    pub value: u32,
}

/// The whole layout.
pub struct DocEncoding {
    pub ops: Vec<OpEncoding>,
    pub inserts: Vec<InsertEncoding>,
    pub deletes: Vec<DeleteEncoding>,
    pub annotations: Vec<AnnEncoding>,
    pub str: Vec<u8>,
    pub compressed_str: bool,
    pub clients: Vec<ClientID>,
    pub ann_types_and_values: Vec<String>,
    pub op_len: Vec<u32>,
    pub start_counters: Vec<u32>,
}

/// The kinds of operations, as stored.
#[derive(Debug, Clone, Copy, PartialEq, Eq, Structural)]
pub enum OpContentType {
    Insert,
    Delete,
    Ann,
}

impl OpContentType {
    /// The stored byte of a kind.
    pub fn to_u8(self) -> (b: u8)
        ensures
            b == match self {
                OpContentType::Insert => 0u8,
                OpContentType::Delete => 1u8,
                OpContentType::Ann => 2u8,
            },
    {
        match self {
            OpContentType::Insert => 0,
            OpContentType::Delete => 1,
            OpContentType::Ann => 2,
        }
    }

    /// The kind of a stored byte; bytes above 2 name no kind.
    pub fn from_u8(b: u8) -> (r: Option<Self>)
        ensures
            r == if b == 0 {
                Some(OpContentType::Insert)
            } else if b == 1 {
                Some(OpContentType::Delete)
            } else if b == 2 {
                Some(OpContentType::Ann)
            } else {
                None::<OpContentType>
            },
    {
        if b == 0 {
            Some(OpContentType::Insert)
        } else if b == 1 {
            Some(OpContentType::Delete)
        } else if b == 2 {
            Some(OpContentType::Ann)
        } else {
            None
        }
    }
}

/// The text `serde_json::to_string` gives for a JSON value.
pub uninterp spec fn json_text(v: serde_json::Value) -> Seq<char>;

/// The value `serde_json::from_str` reads from a text, if it reads one.
pub uninterp spec fn json_parse(s: Seq<char>) -> Option<serde_json::Value>;

/// The bytes `flate2`'s gzip encoder (default compression) writes for
/// `b`.
pub uninterp spec fn gzip_bytes(b: Seq<u8>) -> Seq<u8>;

/// What `flate2`'s gzip decoder reads from `b`, if it reads it whole.
pub uninterp spec fn gunzip_bytes(b: Seq<u8>) -> Option<Seq<u8>>;

/// `serde_json::to_string` on a JSON value. Serialising a `Value` cannot
/// fail (its map keys are strings); the error arm, kept for form, gives an
/// empty text.
#[verifier::external_body]
fn json_to_string(v: &serde_json::Value) -> (s: String)
    ensures
        s@ == json_text(*v),
{
    serde_json::to_string(v).unwrap_or_default()
}

/// `serde_json::from_str` into a JSON value.
#[verifier::external_body]
pub(crate) fn json_from_str(s: &str) -> (r: Option<serde_json::Value>)
    ensures
        r == json_parse(s@),
{
    serde_json::from_str(s).ok()
}

/// `flate2::write::GzEncoder` (default compression) over a `Vec`: the gzip
/// stream of `b`. Writing to a `Vec` cannot fail. Decompressing that stream
/// with `flate2`'s decoder gives `b` back, as gzip is lossless.
#[verifier::external_body]
fn gzip(b: &[u8]) -> (r: Vec<u8>)
    ensures
        r@ == gzip_bytes(b@),
        gunzip_bytes(r@) == Some(b@),
{
    let mut e = flate2::write::GzEncoder::new(Vec::new(), flate2::Compression::default());
    e.write_all(b).unwrap_or_default();
    e.finish().unwrap_or_default()
}

/// `flate2::read::GzDecoder` read to the end: the decompressed bytes, or
/// `None` when the stream is not a gzip stream.
#[verifier::external_body]
pub(crate) fn gunzip(b: &[u8]) -> (r: Option<Vec<u8>>)
    ensures
        match r {
            Some(v) => gunzip_bytes(b@) == Some(v@),
            None => gunzip_bytes(b@) is None,
        },
{
    let mut d = flate2::read::GzDecoder::new(b);
    let mut ans = Vec::new();
    match d.read_to_end(&mut ans) {
        Ok(_) => Some(ans),
        Err(_) => None,
    }
}

/// `AppendOnlyBytes::push_slice`: appends the bytes.
#[verifier::external_body]
pub(crate) fn buffer_push_slice(buf: &mut AppendOnlyBytes, b: &[u8])
    ensures
        crate::bytes::buffer_bytes(*final(buf)) == crate::bytes::buffer_bytes(*old(buf)) + b@,
{
    buf.push_slice(b)
}

/// `AppendOnlyBytes::slice`: the bytes `start..end`, kept by a slice. It
/// panics outside the buffer, which `requires` rules out.
#[verifier::external_body]
pub(crate) fn buffer_slice(buf: &AppendOnlyBytes, start: usize, end: usize) -> (r: BytesSlice)
    requires
        start <= end <= crate::bytes::buffer_bytes(*buf).len(),
    ensures
        slice_bytes(r) == crate::bytes::buffer_bytes(*buf).subrange(start as int, end as int),
{
    buf.slice(start..end)
}

/// The stored kind of an operation.
pub open spec fn kind(op: Op) -> u8 {
    match op.content {
        OpContent::Text(_) => 0,
        OpContent::Del(_) => 1,
        OpContent::Ann(_) => 2,
    }
}

/// How many operations of kind `k` `s` holds.
pub open spec fn count_kind(s: Seq<Op>, k: u8) -> nat
    decreases s.len(),
{
    if s.len() == 0 {
        0
    } else {
        count_kind(s.drop_last(), k) + if kind(s.last()) == k {
            1nat
        } else {
            0nat
        }
    }
}

/// The inserted bytes of an operation (none for other kinds).
pub open spec fn text_bytes_of(op: Op) -> Seq<u8> {
    match op.content {
        OpContent::Text(t) => slice_bytes(t.text),
        _ => Seq::empty(),
    }
}

/// The inserted bytes of `s`, in order.
pub open spec fn all_text(s: Seq<Op>) -> Seq<u8>
    decreases s.len(),
{
    if s.len() == 0 {
        Seq::empty()
    } else {
        all_text(s.drop_last()) + text_bytes_of(s.last())
    }
}

/// The lists one after the other.
pub open spec fn flat(l: Seq<Seq<Op>>) -> Seq<Op>
    decreases l.len(),
{
    if l.len() == 0 {
        Seq::empty()
    } else {
        flat(l.drop_last()) + l.last()
    }
}

/// An origin stored as a peer index and a counter.
pub open spec fn origin_ok(o: Option<OpID>, clients: Seq<ClientID>, idx: u32, counter: u32) -> bool {
    match o {
        None => idx == u32::MAX,
        Some(id) => idx < clients.len() && idx != u32::MAX && clients[idx as int] == id.client
            && counter == id.counter,
    }
}

/// The stored part of one operation is right.
pub open spec fn part_ok(op: Op, d: DocEncoding, i: int) -> bool {
    match op.content {
        OpContent::Text(t) => {
            let e = d.inserts@[i];
            &&& e.len == slice_bytes(t.text).len()
            &&& origin_ok(t.left, d.clients@, e.left_client, e.left_counter)
            &&& origin_ok(t.right, d.clients@, e.right_client, e.right_counter)
        },
        OpContent::Del(x) => {
            let e = d.deletes@[i];
            &&& e.start_client < d.clients@.len()
            &&& d.clients@[e.start_client as int] == x.start.client
            &&& e.start_counter == x.start.counter
            &&& e.len == x.len
        },
        OpContent::Ann(a) => {
            let e = d.annotations@[i];
            let s = d.ann_types_and_values@;
            &&& e.start == a.range.start.id
            &&& e.is_start_before_anchor == (a.range.start.type_ == AnchorType::Before)
            &&& e.end == a.range.end.id
            &&& e.is_end_before_anchor == (a.range.end.type_ == AnchorType::Before)
            &&& e.behavior == a.behavior
            &&& e.type_ < s.len() && s[e.type_ as int]@ == a.type_@
            &&& e.value < s.len() && s[e.value as int]@ == json_text(a.value)
        },
    }
}

/// The index of `c` among the peers, adding it at the end when absent.
fn client_index(clients: &mut Vec<ClientID>, c: ClientID) -> (r: usize)
    ensures
        r < final(clients)@.len(),
        final(clients)@[r as int] == c,
        final(clients)@ == old(clients)@ || final(clients)@ == old(clients)@.push(c),
        r < old(clients)@.len() ==> final(clients)@ == old(clients)@,
        !old(clients)@.contains(c) ==> final(clients)@ == old(clients)@.push(c),
{
    let mut i: usize = 0;
    while i < clients.len()
        invariant
            0 <= i <= clients@.len(),
            clients@ == old(clients)@,
            forall|j: int| 0 <= j < i ==> clients@[j] != c,
        decreases clients@.len() - i,
    {
        if clients[i] == c {
            return i;
        }
        i = i + 1;
    }
    clients.push(c);
    i
}

/// The index of `s` among the strings, adding it at the end when absent.
fn string_index(strings: &mut Vec<String>, s: String) -> (r: usize)
    ensures
        r < final(strings)@.len(),
        final(strings)@[r as int]@ == s@,
        old(strings)@.len() <= final(strings)@.len() <= old(strings)@.len() + 1,
        forall|j: int| 0 <= j < old(strings)@.len() ==> #[trigger] final(strings)@[j] == old(strings)@[j],
{
    let mut i: usize = 0;
    while i < strings.len()
        invariant
            0 <= i <= strings@.len(),
            strings@ == old(strings)@,
        decreases strings@.len() - i,
    {
        if crate::str_eq(strings[i].as_str(), s.as_str()) {
            return i;
        }
        i = i + 1;
    }
    strings.push(s);
    i
}

/// The per-operation columns of `d` lay out the operations `f`, in order,
/// and `raw` is their inserted text.
pub open spec fn parts_ok(d: DocEncoding, f: Seq<Op>, raw: Seq<u8>) -> bool {
    &&& d.ops@.len() == f.len()
    &&& forall|g: int|
        0 <= g < f.len() ==> #[trigger] d.ops@[g] == (OpEncoding {
            lamport: f[g].lamport,
            type_: kind(f[g]),
        })
    &&& d.inserts@.len() == count_kind(f, 0)
    &&& d.deletes@.len() == count_kind(f, 1)
    &&& d.annotations@.len() == count_kind(f, 2)
    &&& forall|g: int|
        0 <= g < f.len() ==> #[trigger] part_ok(f[g], d, count_kind(f.take(g), kind(f[g])) as int)
    &&& raw == all_text(f)
}

/// `d2` only appends to the parts, peers and strings of `d`.
pub open spec fn extends(d: DocEncoding, d2: DocEncoding) -> bool {
    &&& d.inserts@.len() <= d2.inserts@.len()
    &&& forall|i: int| 0 <= i < d.inserts@.len() ==> #[trigger] d2.inserts@[i] == d.inserts@[i]
    &&& d.deletes@.len() <= d2.deletes@.len()
    &&& forall|i: int| 0 <= i < d.deletes@.len() ==> #[trigger] d2.deletes@[i] == d.deletes@[i]
    &&& d.annotations@.len() <= d2.annotations@.len()
    &&& forall|i: int| 0 <= i < d.annotations@.len() ==> #[trigger] d2.annotations@[i] == d.annotations@[i]
    &&& d.clients@.len() <= d2.clients@.len()
    &&& forall|i: int| 0 <= i < d.clients@.len() ==> #[trigger] d2.clients@[i] == d.clients@[i]
    &&& d.ann_types_and_values@.len() <= d2.ann_types_and_values@.len()
    &&& forall|i: int|
        0 <= i < d.ann_types_and_values@.len() ==> #[trigger] d2.ann_types_and_values@[i]
            == d.ann_types_and_values@[i]
}

/// Counting a kind over one more operation.
pub proof fn lemma_count_step(f: Seq<Op>, g: int, k: u8)
    requires
        0 <= g < f.len(),
    ensures
        count_kind(f.take(g + 1), k) == count_kind(f.take(g), k) + if kind(f[g]) == k {
            1nat
        } else {
            0nat
        },
        count_kind(f.take(g + 1), k) <= count_kind(f, k),
    decreases f.len() - g,
{
    assert(f.take(g + 1).drop_last() =~= f.take(g));
    if g + 1 < f.len() {
        lemma_count_step(f, g + 1, k);
    } else {
        assert(f.take(g + 1) =~= f);
    }
}

/// A part stays right when the layout only grows.
pub proof fn lemma_part_stable(op: Op, d: DocEncoding, d2: DocEncoding, i: int)
    requires
        part_ok(op, d, i),
        extends(d, d2),
        0 <= i,
        match op.content {
            OpContent::Text(_) => i < d.inserts@.len(),
            OpContent::Del(_) => i < d.deletes@.len(),
            OpContent::Ann(_) => i < d.annotations@.len(),
        },
    ensures
        part_ok(op, d2, i),
{
    match op.content {
        OpContent::Text(t) => {
            assert(d2.inserts@[i] == d.inserts@[i]);
            let e = d.inserts@[i];
            if let Some(x) = t.left {
                assert(d2.clients@[e.left_client as int] == d.clients@[e.left_client as int]);
            }
            if let Some(x) = t.right {
                assert(d2.clients@[e.right_client as int] == d.clients@[e.right_client as int]);
            }
        },
        OpContent::Del(x) => {
            assert(d2.deletes@[i] == d.deletes@[i]);
            let e = d.deletes@[i];
            assert(d2.clients@[e.start_client as int] == d.clients@[e.start_client as int]);
        },
        OpContent::Ann(a) => {
            assert(d2.annotations@[i] == d.annotations@[i]);
            let e = d.annotations@[i];
            assert(d2.ann_types_and_values@[e.type_ as int] == d.ann_types_and_values@[e.type_ as int]);
            assert(d2.ann_types_and_values@[e.value as int] == d.ann_types_and_values@[e.value as int]);
        },
    }
}

/// The columns alone decide whether they lay out some operations.
pub proof fn lemma_parts_frame(d: DocEncoding, d2: DocEncoding, f: Seq<Op>, raw: Seq<u8>)
    requires
        parts_ok(d, f, raw),
        d2.ops@ == d.ops@,
        d2.inserts@ == d.inserts@,
        d2.deletes@ == d.deletes@,
        d2.annotations@ == d.annotations@,
        d2.clients@ == d.clients@,
        d2.ann_types_and_values@ == d.ann_types_and_values@,
    ensures
        parts_ok(d2, f, raw),
{
    assert(extends(d, d2));
    assert forall|g: int| 0 <= g < f.len() implies #[trigger] part_ok(
        f[g],
        d2,
        count_kind(f.take(g), kind(f[g])) as int,
    ) by {
        lemma_count_step(f, g, kind(f[g]));
        lemma_part_stable(f[g], d, d2, count_kind(f.take(g), kind(f[g])) as int);
    }
}

/// Lays out one more operation.
#[verifier::rlimit(60)]
fn encode_op(op: &Op, d: &mut DocEncoding, raw: &mut Vec<u8>, Ghost(f): Ghost<Seq<Op>>)
    requires
        parts_ok(*old(d), f, old(raw)@),
        old(d).clients@.len() + 2 < u32::MAX,
        match op.content {
            OpContent::Text(t) => slice_bytes(t.text).len() <= u32::MAX,
            _ => true,
        },
        old(d).ann_types_and_values@.len() + 2 < u32::MAX,
    ensures
        parts_ok(*final(d), f.push(*op), final(raw)@),
        extends(*old(d), *final(d)),
        final(d).clients@.len() <= old(d).clients@.len() + 2,
        final(d).ann_types_and_values@.len() <= old(d).ann_types_and_values@.len() + 2,
        final(d).op_len@ == old(d).op_len@,
        final(d).start_counters@ == old(d).start_counters@,
{
    let ghost d0 = *d;
    let ghost f2 = f.push(*op);
    let type_: u8 = match &op.content {
        OpContent::Text(text) => {
            let b = bytes_as_slice(&text.text);
            raw.extend_from_slice(b);
            let left_client: u32 = match text.left {
                Some(x) => client_index(&mut d.clients, x.client) as u32,
                None => u32::MAX,
            };
            let left_counter: u32 = match text.left {
                Some(x) => x.counter,
                None => 0,
            };
            let right_client: u32 = match text.right {
                Some(x) => client_index(&mut d.clients, x.client) as u32,
                None => u32::MAX,
            };
            let right_counter: u32 = match text.right {
                Some(x) => x.counter,
                None => 0,
            };
            d.inserts.push(
                InsertEncoding {
                    len: b.len() as u32,
                    left_client,
                    left_counter,
                    right_client,
                    right_counter,
                },
            );
            0
        },
        OpContent::Del(del) => {
            let start_client = client_index(&mut d.clients, del.start.client) as u32;
            d.deletes.push(
                DeleteEncoding { start_client, start_counter: del.start.counter, len: del.len },
            );
            1
        },
        OpContent::Ann(ann) => {
            let t = string_index(&mut d.ann_types_and_values, ann.type_.clone()) as u32;
            let v = string_index(&mut d.ann_types_and_values, json_to_string(&ann.value)) as u32;
            d.annotations.push(
                AnnEncoding {
                    start: ann.range.start.id,
                    is_start_before_anchor: ann.range.start.type_ == AnchorType::Before,
                    end: ann.range.end.id,
                    is_end_before_anchor: ann.range.end.type_ == AnchorType::Before,
                    behavior: ann.behavior,
                    type_: t,
                    value: v,
                },
            );
            2
        },
    };
    d.ops.push(OpEncoding { lamport: op.lamport, type_ });
    proof {
        assert(extends(d0, *d));
        let g0 = f.len() as int;
        assert(f2.take(g0) =~= f);
        assert(f2.drop_last() =~= f);
        assert forall|g: int| 0 <= g < f2.len() implies #[trigger] part_ok(
            f2[g],
            *d,
            count_kind(f2.take(g), kind(f2[g])) as int,
        ) by {
            if g < g0 {
                assert(f2[g] == f[g]);
                assert(f2.take(g) =~= f.take(g));
                lemma_count_step(f, g, kind(f[g]));
                lemma_part_stable(f[g], d0, *d, count_kind(f.take(g), kind(f[g])) as int);
            }
        }
        assert(raw@ =~= all_text(f2));
    }
}


/// `keys` and `l` list the non-empty lists of `m`: each key with a non-empty
/// list once, with its list.
pub open spec fn lists_of(m: Map<ClientID, Vec<Op>>, keys: Seq<ClientID>, l: Seq<Seq<Op>>) -> bool {
    &&& keys.no_duplicates()
    &&& keys.len() == l.len()
    &&& forall|k: int|
        0 <= k < l.len() ==> m.contains_key(#[trigger] keys[k]) && m[keys[k]]@ == l[k] && l[k].len()
            > 0
    &&& forall|c: ClientID| #[trigger] m.contains_key(c) && m[c]@.len() > 0 ==> keys.contains(c)
}

/// `d` is the layout of the lists `l` of the peers `keys`: the peers come
/// first among the stored peers, each list with its length and its first
/// counter; the columns lay out the lists one after the other; and the
/// inserted text is stored gzip-compressed when it is longer than
/// [`COMPRESS_THRESHOLD`] (and then decompresses to it), as it is otherwise.
pub open spec fn encodes(d: DocEncoding, keys: Seq<ClientID>, l: Seq<Seq<Op>>) -> bool {
    let f = flat(l);
    let raw = all_text(f);
    &&& keys.len() == l.len()
    &&& d.op_len@.len() == l.len()
    &&& d.start_counters@.len() == l.len()
    &&& l.len() <= d.clients@.len()
    &&& d.clients@.len() < u32::MAX
    &&& forall|k: int|
        0 <= k < l.len() ==> {
            &&& (#[trigger] l[k]).len() > 0
            &&& d.op_len@[k] == l[k].len()
            &&& d.start_counters@[k] == l[k][0].id.counter
            &&& d.clients@[k] == keys[k]
        }
    &&& parts_ok(d, f, raw)
    &&& d.compressed_str == (raw.len() > COMPRESS_THRESHOLD)
    &&& d.str@ == if raw.len() > COMPRESS_THRESHOLD {
        gzip_bytes(raw)
    } else {
        raw
    }
    &&& d.compressed_str ==> gunzip_bytes(d.str@) == Some(raw)
}

/// Lists whose counts fit the layout's `u32` fields: the peers and twice
/// the operations stay below `u32::MAX`, and no inserted text is longer
/// than `u32::MAX` bytes.
pub open spec fn lists_fit(keys: Seq<ClientID>, l: Seq<Seq<Op>>) -> bool {
    &&& keys.len() + 2 * flat(l).len() + 4 < u32::MAX
    &&& forall|i: int| 0 <= i < flat(l).len() ==> text_bytes_of(#[trigger] flat(l)[i]).len() <= u32::MAX
}

/// A prefix of the lists lays out a prefix of all the operations.
pub proof fn lemma_flat_prefix(l: Seq<Seq<Op>>, n: int)
    requires
        0 <= n <= l.len(),
    ensures
        flat(l.take(n)).len() <= flat(l).len(),
        forall|i: int| 0 <= i < flat(l.take(n)).len() ==> #[trigger] flat(l.take(n))[i] == flat(l)[i],
    decreases l.len(),
{
    if n < l.len() {
        assert(l.drop_last().take(n) =~= l.take(n));
        lemma_flat_prefix(l.drop_last(), n);
    } else {
        assert(l.take(n) =~= l);
    }
}

/// The lists one after the other, taken one more list at a time.
pub proof fn lemma_flat_step(l: Seq<Seq<Op>>, k: int)
    requires
        0 <= k < l.len(),
    ensures
        flat(l.take(k + 1)) == flat(l.take(k)) + l[k],
{
    assert(l.take(k + 1).drop_last() =~= l.take(k));
}

/// Lays out the operations of each peer (see [`encodes`]); the peers with no
/// operation are left out. `None` when a count or an index would not fit the
/// layout's `u32` fields, which cannot happen when the lists fit (see
/// [`lists_fit`]).
#[verifier::rlimit(100)]
pub fn to_doc_encoding(exported_map: FxHashMap<ClientID, Vec<Op>>) -> (r: Option<DocEncoding>)
    ensures
        (forall|keys: Seq<ClientID>, l: Seq<Seq<Op>>|
            #![trigger lists_of(exported_map@, keys, l)]
            lists_of(exported_map@, keys, l) ==> lists_fit(keys, l)) ==> r is Some,
        r matches Some(d) ==> exists|keys: Seq<ClientID>, l: Seq<Seq<Op>>|
            lists_of(exported_map@, keys, l) && encodes(d, keys, l),
{
    let m = &exported_map;
    let all_keys = fx_map_keys(m);
    let mut d = DocEncoding {
        ops: Vec::new(),
        inserts: Vec::new(),
        deletes: Vec::new(),
        annotations: Vec::new(),
        str: Vec::new(),
        compressed_str: false,
        clients: Vec::new(),
        ann_types_and_values: Vec::new(),
        op_len: Vec::new(),
        start_counters: Vec::new(),
    };
    let mut i: usize = 0;
    while i < all_keys.len()
        invariant
            0 <= i <= all_keys@.len(),
            m@ == exported_map@,
            all_keys@.to_set() == m@.dom(),
            all_keys@.no_duplicates(),
            d.clients@.no_duplicates(),
            d.clients@.len() <= i,
            forall|j: int|
                0 <= j < d.clients@.len() ==> m@.contains_key(#[trigger] d.clients@[j]) && m@[d.clients@[j]]@.len() > 0
                    && all_keys@.take(i as int).contains(d.clients@[j]),
            forall|c: ClientID|
                #[trigger] all_keys@.take(i as int).contains(c) && m@.contains_key(c) && m@[c]@.len() > 0
                    ==> d.clients@.contains(c),
            d.ops@.len() == 0,
            d.inserts@.len() == 0,
            d.deletes@.len() == 0,
            d.annotations@.len() == 0,
            d.ann_types_and_values@.len() == 0,
            d.op_len@.len() == 0,
            d.start_counters@.len() == 0,
        decreases all_keys.len() - i,
    {
        let c = all_keys[i];
        proof {
            assert(all_keys@.to_set().contains(c));
            assert(all_keys@.take(i as int + 1) =~= all_keys@.take(i as int).push(c));
            assert(!all_keys@.take(i as int).contains(c)) by {
                if all_keys@.take(i as int).contains(c) {
                    let j = choose|j: int| 0 <= j < i && all_keys@.take(i as int)[j] == c;
                    assert(all_keys@[j] == all_keys@[i as int]);
                }
            }
        }
        let v = fx_map_get(m, c).unwrap();
        if v.len() > 0 {
            d.clients.push(c);
        }
        i = i + 1;
    }
    proof {
        assert(all_keys@.take(all_keys@.len() as int) =~= all_keys@);
        all_keys@.unique_seq_to_set();
    }
    let nk = d.clients.len();
    let ghost keys = d.clients@;
    let ghost l = Seq::new(keys.len(), |k: int| m@[keys[k]]@);
    let ghost fits_all = forall|keys: Seq<ClientID>, l: Seq<Seq<Op>>|
        #![trigger lists_of(exported_map@, keys, l)]
        lists_of(exported_map@, keys, l) ==> lists_fit(keys, l);
    proof {
        assert forall|c: ClientID| #[trigger] m@.contains_key(c) && m@[c]@.len() > 0 implies keys.contains(c) by {
            assert(all_keys@.to_set().contains(c));
        }
        assert(lists_of(m@, keys, l));
        assert(fits_all ==> lists_fit(keys, l));
        assert(l.take(0) =~= Seq::<Seq<Op>>::empty());
        assert(parts_ok(d, flat(l.take(0)), Seq::<u8>::empty())) by {
            assert(flat(l.take(0)) =~= Seq::<Op>::empty());
        }
    }
    if nk >= u32::MAX as usize - 3 {
        return None;
    }
    let mut raw: Vec<u8> = Vec::new();
    let mut k: usize = 0;
    while k < nk
        invariant
            0 <= k <= nk,
            m@ == exported_map@,
            nk == keys.len(),
            nk <= all_keys@.len(),
            all_keys@.len() == m@.dom().len(),
            l == Seq::new(keys.len(), |k: int| m@[keys[k]]@),
            lists_of(m@, keys, l),
            nk <= d.clients@.len(),
            forall|j: int| 0 <= j < nk ==> #[trigger] d.clients@[j] == keys[j],
            d.op_len@.len() == k,
            d.start_counters@.len() == k,
            forall|j: int|
                0 <= j < k ==> #[trigger] d.op_len@[j] == l[j].len() && d.start_counters@[j]
                    == l[j][0].id.counter,
            parts_ok(d, flat(l.take(k as int)), raw@),
            d.clients@.len() <= nk + 2 * flat(l.take(k as int)).len(),
            d.ann_types_and_values@.len() <= 2 * flat(l.take(k as int)).len(),
            d.clients@.len() < u32::MAX,
            fits_all ==> lists_fit(keys, l),
            fits_all <==> (forall|keys: Seq<ClientID>, l: Seq<Seq<Op>>|
                #![trigger lists_of(exported_map@, keys, l)]
                lists_of(exported_map@, keys, l) ==> lists_fit(keys, l)),
        decreases nk - k,
    {
        let c = d.clients[k];
        let op_arr = fx_map_get(m, c).unwrap();
        let ghost f0 = flat(l.take(k as int));
        proof {
            assert(l[k as int] == op_arr@);
            lemma_flat_step(l, k as int);
        }
        proof {
            lemma_flat_prefix(l, k as int + 1);
            assert forall|x: int| 0 <= x < op_arr@.len() implies #[trigger] flat(l)[f0.len() + x] == op_arr@[x] by {
                assert(flat(l.take(k as int + 1))[f0.len() + x] == op_arr@[x]);
            }
        }
        if op_arr.len() >= u32::MAX as usize {
            return None;
        }
        let ghost d0 = d;
        d.op_len.push(op_arr.len() as u32);
        d.start_counters.push(op_arr[0].id.counter);
        let mut j: usize = 0;
        proof {
            assert(f0 + op_arr@.take(0) =~= f0);
            lemma_parts_frame(d0, d, f0, raw@);
        }
        while j < op_arr.len()
            invariant
                0 <= j <= op_arr@.len(),
                op_arr@ == l[k as int],
                0 <= k < nk,
                m@ == exported_map@,
                nk == keys.len(),
                nk <= all_keys@.len(),
                all_keys@.len() == m@.dom().len(),
                m@.contains_key(keys[k as int]),
                m@[keys[k as int]]@ == op_arr@,
                f0 == flat(l.take(k as int)),
                nk <= d.clients@.len(),
                forall|jj: int| 0 <= jj < nk ==> #[trigger] d.clients@[jj] == keys[jj],
                d.op_len@.len() == k + 1,
                d.start_counters@.len() == k + 1,
                forall|jj: int|
                    0 <= jj <= k ==> #[trigger] d.op_len@[jj] == l[jj].len() && d.start_counters@[jj]
                        == l[jj][0].id.counter,
                parts_ok(d, f0 + op_arr@.take(j as int), raw@),
                d.clients@.len() <= nk + 2 * (f0.len() + j),
                d.ann_types_and_values@.len() <= 2 * (f0.len() + j),
                d.clients@.len() < u32::MAX,
                fits_all ==> lists_fit(keys, l),
                fits_all <==> (forall|keys: Seq<ClientID>, l: Seq<Seq<Op>>|
                    #![trigger lists_of(exported_map@, keys, l)]
                    lists_of(exported_map@, keys, l) ==> lists_fit(keys, l)),
                f0.len() + op_arr@.len() <= flat(l).len(),
                forall|x: int| 0 <= x < op_arr@.len() ==> #[trigger] flat(l)[f0.len() + x] == op_arr@[x],
            decreases op_arr@.len() - j,
        {
            let op = &op_arr[j];
            if d.clients.len() >= u32::MAX as usize - 3 || d.ann_types_and_values.len()
                >= u32::MAX as usize - 3 {
                return None;
            }
            if let OpContent::Text(t) = &op.content {
                if crate::bytes::bytes_len(&t.text) > u32::MAX as usize {
                    proof {
                        if fits_all {
                            assert(flat(l)[f0.len() + j] == *op);
                        }
                    }
                    return None;
                }
            }
            proof {
                assert(f0 + op_arr@.take(j as int + 1) =~= (f0 + op_arr@.take(j as int)).push(*op));
            }
            encode_op(op, &mut d, &mut raw, Ghost(f0 + op_arr@.take(j as int)));
            j = j + 1;
        }
        proof {
            assert(op_arr@.take(op_arr@.len() as int) =~= op_arr@);
        }
        k = k + 1;
    }
    proof {
        assert(l.take(nk as int) =~= l);
    }
    let ghost d1 = d;
    let ghost raw1 = raw@;
    let compressed = raw.len() > COMPRESS_THRESHOLD;
    if compressed {
        d.str = gzip(raw.as_slice());
    } else {
        d.str = raw;
    }
    d.compressed_str = compressed;
    proof {
        lemma_parts_frame(d1, d, flat(l), raw1);
        assert(keys.len() == l.len());
        assert(d.op_len@.len() == l.len());
        assert(d.start_counters@.len() == l.len());
        assert(l.len() <= d.clients@.len());
        assert(d.clients@.len() < u32::MAX);
        assert forall|k: int| 0 <= k < l.len() implies {
            &&& (#[trigger] l[k]).len() > 0
            &&& d.op_len@[k] == l[k].len()
            &&& d.start_counters@[k] == l[k][0].id.counter
            &&& d.clients@[k] == keys[k]
        } by {
            assert(m@.contains_key(keys[k]));
            assert(d1.op_len@[k] == l[k].len());
            assert(d1.clients@[k] == keys[k]);
        }
        assert(parts_ok(d, flat(l), all_text(flat(l))));
        assert(d.compressed_str == (all_text(flat(l)).len() > COMPRESS_THRESHOLD));
        assert(d.str@ == if all_text(flat(l)).len() > COMPRESS_THRESHOLD {
        gzip_bytes(all_text(flat(l)))
    } else {
        all_text(flat(l))
    });
        assert(encodes(d, keys, l));
        assert(lists_of(exported_map@, keys, l));
    }
    let r = Some(d);
    assert(r matches Some(d) && encodes(d, keys, l));
    r
}

} // verus!
