//! Reading the operations back from their columnar layout (see
//! [`crate::encoding`]).
//!
//! [`decodes`] says which lists of operations a layout stands for; a layout
//! stands for at most one, up to the buffers that hold the inserted text
//! ([`op_equiv`]), and [`from_doc_encoding`] finds it exactly when there is
//! one. [`lemma_layout_decodes`] shows that the layout of a peer's history
//! stands for that history.
use vstd::prelude::*;

use append_only_bytes::AppendOnlyBytes;
use fxhash::FxHashMap;

use crate::bytes::{buffer_bytes, buffer_new, slice_bytes};
use crate::encoding::{
    all_text, count_kind, encodes, flat, gunzip, gunzip_bytes, json_from_str, json_parse,
    json_text, kind, lemma_count_step, lemma_flat_step, origin_ok, text_bytes_of, buffer_push_slice,
    buffer_slice, DocEncoding, OpEncoding,
};
use crate::error::Error;
use crate::fx::{fx_map_get, fx_map_insert, fx_map_new};
use crate::op::{op_len, DeleteOp, Op, OpContent, TextInsertOp};
use crate::{Anchor, AnchorRange, AnchorType, Annotation, ClientID, OpID};
use std::sync::Arc;

verus! {

broadcast use vstd::seq_lib::group_seq_properties;

/// The inserted text a layout stores, decompressed when it is stored
/// compressed (`None` when it cannot be).
pub open spec fn stored_text(d: DocEncoding) -> Option<Seq<u8>> {
    if d.compressed_str {
        gunzip_bytes(d.str@)
    } else {
        Some(d.str@)
    }
}

/// How many lists a layout holds: as many as it has peers, lengths and first
/// counters, all three.
pub open spec fn list_count(d: DocEncoding) -> int {
    let a = d.clients@.len();
    let b = d.op_len@.len();
    let c = d.start_counters@.len();
    if a <= b && a <= c {
        a as int
    } else if b <= c {
        b as int
    } else {
        c as int
    }
}

/// `ops` are operations of peer `c` from counter `start` on, each starting
/// where the previous one ends, none ending past `u32::MAX`.
pub open spec fn chain_ok(ops: Seq<Op>, c: ClientID, start: u32) -> bool {
    &&& forall|j: int|
        0 <= j < ops.len() ==> (#[trigger] ops[j]).id.client == c && ops[j].id.counter + op_len(
            ops[j],
        ) <= u32::MAX
    &&& ops.len() > 0 ==> ops[0].id.counter == start
    &&& forall|j: int|
        0 < j < ops.len() ==> #[trigger] ops[j].id.counter == ops[j - 1].id.counter + op_len(
            ops[j - 1],
        )
}

/// `op` is what the `i`-th stored part of its kind says.
pub open spec fn part_decodes(op: Op, d: DocEncoding, i: int) -> bool {
    match op.content {
        OpContent::Text(t) => {
            let e = d.inserts@[i];
            &&& e.len == slice_bytes(t.text).len()
            &&& origin_ok(t.left, d.clients@, e.left_client, e.left_counter)
            &&& origin_ok(t.right, d.clients@, e.right_client, e.right_counter)
        },
        OpContent::Del(x) => {
            let e = d.deletes@[i];
            &&& e.start_client < d.clients@.len()
            &&& x.start == (OpID { client: d.clients@[e.start_client as int], counter: e.start_counter })
            &&& x.len == e.len
        },
        OpContent::Ann(a) => {
            let e = d.annotations@[i];
            let s = d.ann_types_and_values@;
            &&& a.range.start == (Anchor {
                id: e.start,
                type_: if e.is_start_before_anchor {
                    AnchorType::Before
                } else {
                    AnchorType::After
                },
            })
            &&& a.range.end == (Anchor {
                id: e.end,
                type_: if e.is_end_before_anchor {
                    AnchorType::Before
                } else {
                    AnchorType::After
                },
            })
            &&& a.behavior == e.behavior
            &&& e.type_ < s.len()
            &&& a.type_@ == s[e.type_ as int]@
            &&& e.value < s.len()
            &&& json_parse(s[e.value as int]@) == Some(a.value)
            &&& a.id == op.id
            &&& a.range_lamport == (op.lamport, op.id)
        },
    }
}

/// The columns of `d` hold the operations `f` in order (each operation's
/// lamport and kind, and the part of its kind that says the rest), and the
/// stored text `raw` starts with their inserted text.
pub open spec fn columns_hold(d: DocEncoding, f: Seq<Op>, raw: Seq<u8>) -> bool {
    &&& f.len() <= d.ops@.len()
    &&& forall|g: int|
        0 <= g < f.len() ==> #[trigger] d.ops@[g] == (OpEncoding {
            lamport: f[g].lamport,
            type_: kind(f[g]),
        })
    &&& count_kind(f, 0) <= d.inserts@.len()
    &&& count_kind(f, 1) <= d.deletes@.len()
    &&& count_kind(f, 2) <= d.annotations@.len()
    &&& forall|g: int|
        0 <= g < f.len() ==> #[trigger] part_decodes(f[g], d, count_kind(f.take(g), kind(f[g])) as int)
    &&& all_text(f).len() <= raw.len()
    &&& raw.take(all_text(f).len() as int) == all_text(f)
}

/// `l` are the lists that `d` stands for: one per stored list, of the stored
/// length, of the stored peer (no peer twice) from the stored first counter
/// on, held by the columns one list after the other, with the stored text
/// readable.
pub open spec fn decodes(d: DocEncoding, l: Seq<Seq<Op>>) -> bool {
    &&& l.len() == list_count(d)
    &&& d.clients@.take(list_count(d)).no_duplicates()
    &&& forall|k: int|
        0 <= k < l.len() ==> (#[trigger] l[k]).len() == d.op_len@[k] && chain_ok(
            l[k],
            d.clients@[k],
            d.start_counters@[k],
        )
    &&& stored_text(d) is Some
    &&& columns_hold(d, flat(l), stored_text(d)->0)
}

/// Two operations that are alike but for the buffers holding their text.
pub open spec fn op_equiv(a: Op, b: Op) -> bool {
    &&& a.id == b.id
    &&& a.lamport == b.lamport
    &&& match (a.content, b.content) {
        (OpContent::Text(x), OpContent::Text(y)) => {
            &&& x.left == y.left
            &&& x.right == y.right
            &&& slice_bytes(x.text) == slice_bytes(y.text)
        },
        (OpContent::Del(x), OpContent::Del(y)) => x == y,
        (OpContent::Ann(x), OpContent::Ann(y)) => {
            &&& x.id == y.id
            &&& x.range_lamport == y.range_lamport
            &&& x.range == y.range
            &&& x.behavior == y.behavior
            &&& x.type_@ == y.type_@
            &&& x.value == y.value
        },
        _ => false,
    }
}

/// Two lists of operations alike one by one (see [`op_equiv`]).
pub open spec fn lists_equiv(a: Seq<Op>, b: Seq<Op>) -> bool {
    &&& a.len() == b.len()
    &&& forall|j: int| 0 <= j < a.len() ==> #[trigger] op_equiv(a[j], b[j])
}

/// Alike operations use as many ids, are of one kind and insert the same
/// bytes.
pub proof fn lemma_equiv_same_shape(a: Op, b: Op)
    requires
        op_equiv(a, b),
    ensures
        op_len(a) == op_len(b),
        kind(a) == kind(b),
        text_bytes_of(a) == text_bytes_of(b),
{
}

/// Alike lists hold as many operations of each kind and insert the same
/// bytes.
pub proof fn lemma_equiv_counts(a: Seq<Op>, b: Seq<Op>, t: u8)
    requires
        lists_equiv(a, b),
    ensures
        count_kind(a, t) == count_kind(b, t),
        all_text(a) == all_text(b),
    decreases a.len(),
{
    if a.len() > 0 {
        let n = a.len() - 1;
        assert(op_equiv(a[n], b[n]));
        lemma_equiv_same_shape(a[n], b[n]);
        assert(lists_equiv(a.drop_last(), b.drop_last())) by {
            assert forall|j: int| 0 <= j < a.drop_last().len() implies #[trigger] op_equiv(
                a.drop_last()[j],
                b.drop_last()[j],
            ) by {
                assert(op_equiv(a[j], b[j]));
            }
        }
        lemma_equiv_counts(a.drop_last(), b.drop_last(), t);
    }
}

/// The text of the first operations is a prefix of the text of all.
pub proof fn lemma_all_text_prefix(f: Seq<Op>, g: int)
    requires
        0 <= g <= f.len(),
    ensures
        all_text(f.take(g)).len() <= all_text(f).len(),
        all_text(f).take(all_text(f.take(g)).len() as int) == all_text(f.take(g)),
    decreases f.len(),
{
    if g < f.len() {
        assert(f.drop_last().take(g) =~= f.take(g));
        lemma_all_text_prefix(f.drop_last(), g);
        let p = all_text(f.take(g));
        let q = all_text(f.drop_last());
        assert(all_text(f) == q + text_bytes_of(f.last()));
        assert(all_text(f).take(p.len() as int) =~= q.take(p.len() as int));
    } else {
        assert(f.take(g) =~= f);
    }
}

/// The `j`-th operation of the `k`-th list sits in the lists one after the
/// other after the operations of the lists before it.
pub proof fn lemma_flat_index(l: Seq<Seq<Op>>, k: int, j: int)
    requires
        0 <= k < l.len(),
        0 <= j < l[k].len(),
    ensures
        flat(l.take(k)).len() + j < flat(l).len(),
        flat(l)[flat(l.take(k)).len() + j] == l[k][j],
    decreases l.len(),
{
    let n = l.len() - 1;
    assert(flat(l) == flat(l.drop_last()) + l[n]);
    if k == n {
        assert(l.take(k) =~= l.drop_last());
    } else {
        assert(l.drop_last().take(k) =~= l.take(k));
        lemma_flat_index(l.drop_last(), k, j);
    }
}

/// What `d` stores for its `g`-th operation can be read, when the next
/// unread part of each kind is at `ii`, `dd`, `aa` and the next unread byte
/// of the stored text `raw` at `si`: the part exists, its peer indices are in
/// range, its text lies within `raw` and its JSON value parses.
pub open spec fn op_readable(
    d: DocEncoding,
    raw: Seq<u8>,
    g: int,
    ii: int,
    dd: int,
    aa: int,
    si: int,
) -> bool {
    &&& 0 <= g < d.ops@.len()
    &&& {
        let t = d.ops@[g].type_;
        let n = d.clients@.len();
        if t == 0 {
            &&& 0 <= ii < d.inserts@.len()
            &&& (d.inserts@[ii].left_client == u32::MAX || d.inserts@[ii].left_client < n)
            &&& (d.inserts@[ii].right_client == u32::MAX || d.inserts@[ii].right_client < n)
            &&& 0 <= si
            &&& si + d.inserts@[ii].len <= raw.len()
        } else if t == 1 {
            &&& 0 <= dd < d.deletes@.len()
            &&& d.deletes@[dd].start_client < n
        } else if t == 2 {
            let s = d.ann_types_and_values@;
            let e = d.annotations@[aa];
            &&& 0 <= aa < d.annotations@.len()
            &&& e.type_ < s.len()
            &&& e.value < s.len()
            &&& json_parse(s[e.value as int]@) is Some
        } else {
            false
        }
    }
}

/// `op`, with id `id`, is what `d` stores for its `g`-th operation, read at
/// the positions of [`op_readable`].
pub open spec fn read_matches(
    op: Op,
    d: DocEncoding,
    raw: Seq<u8>,
    g: int,
    ii: int,
    dd: int,
    aa: int,
    si: int,
    id: OpID,
) -> bool {
    &&& 0 <= g < d.ops@.len()
    &&& op.id == id
    &&& op.lamport == d.ops@[g].lamport
    &&& kind(op) == d.ops@[g].type_
    &&& part_decodes(
        op,
        d,
        if kind(op) == 0 {
            ii
        } else if kind(op) == 1 {
            dd
        } else {
            aa
        },
    )
    &&& (kind(op) == 0 ==> 0 <= ii < d.inserts@.len())
    &&& (kind(op) == 1 ==> 0 <= dd < d.deletes@.len())
    &&& (kind(op) == 2 ==> 0 <= aa < d.annotations@.len())
    &&& kind(op) == 0 ==> {
        &&& 0 <= si
        &&& si + text_bytes_of(op).len() <= raw.len()
        &&& text_bytes_of(op) == raw.subrange(si, si + text_bytes_of(op).len())
    }
}

/// Whatever matches the stored operation makes it readable, and two
/// operations that match it are alike.
pub proof fn lemma_read_unique(
    a: Op,
    b: Op,
    d: DocEncoding,
    raw: Seq<u8>,
    g: int,
    ii: int,
    dd: int,
    aa: int,
    si: int,
    id: OpID,
)
    requires
        read_matches(a, d, raw, g, ii, dd, aa, si, id),
    ensures
        op_readable(d, raw, g, ii, dd, aa, si),
        read_matches(b, d, raw, g, ii, dd, aa, si, id) ==> op_equiv(a, b),
{
    if let OpContent::Text(t) = a.content {
        let e = d.inserts@[ii];
        assert(e.left_client == u32::MAX || e.left_client < d.clients@.len());
    }
}


/// Reading one more operation that matches what is stored keeps the columns
/// holding what was read.
pub proof fn lemma_columns_push(d: DocEncoding, f: Seq<Op>, raw: Seq<u8>, op: Op)
    requires
        columns_hold(d, f, raw),
        read_matches(
            op,
            d,
            raw,
            f.len() as int,
            count_kind(f, 0) as int,
            count_kind(f, 1) as int,
            count_kind(f, 2) as int,
            all_text(f).len() as int,
            op.id,
        ),
    ensures
        columns_hold(d, f.push(op), raw),
        all_text(f.push(op)) == all_text(f) + text_bytes_of(op),
        forall|t: u8|
            #[trigger] count_kind(f.push(op), t) == count_kind(f, t) + if kind(op) == t {
                1nat
            } else {
                0nat
            },
{
    let f2 = f.push(op);
    assert(f2.drop_last() =~= f);
    assert(f2.take(f.len() as int) =~= f);
    assert forall|g: int| 0 <= g < f2.len() implies #[trigger] part_decodes(
        f2[g],
        d,
        count_kind(f2.take(g), kind(f2[g])) as int,
    ) by {
        if g < f.len() {
            assert(f2.take(g) =~= f.take(g));
        }
    }
    let si = all_text(f).len() as int;
    let n = text_bytes_of(op).len() as int;
    assert(raw.take(si + n) =~= raw.take(si) + raw.subrange(si, si + n));
}

/// The lists read so far, `res` and then the first operations `cur` of the
/// next list, are alike to the first lists of `l`.
pub open spec fn read_so_far(l: Seq<Seq<Op>>, res: Seq<Seq<Op>>, cur: Seq<Op>) -> bool {
    let k = res.len() as int;
    &&& k <= l.len()
    &&& k == l.len() ==> cur.len() == 0
    &&& forall|k2: int| 0 <= k2 < k ==> lists_equiv(#[trigger] res[k2], l[k2])
    &&& flat(l.take(k)).len() == flat(res).len()
    &&& k < l.len() ==> cur.len() <= l[k].len() && lists_equiv(cur, l[k].take(cur.len() as int))
    &&& flat(res).len() + cur.len() <= flat(l).len()
    &&& lists_equiv(flat(res) + cur, flat(l).take((flat(res).len() + cur.len()) as int))
}

/// Reads the `g`-th stored operation (see [`op_readable`]) and gives it the
/// id `id`; its text is a slice of `buf`, which holds the stored text.
fn decode_op(
    d: &DocEncoding,
    buf: &AppendOnlyBytes,
    g: usize,
    ii: usize,
    dd: usize,
    aa: usize,
    si: usize,
    id: OpID,
) -> (r: Option<Op>)
    ensures
        r is Some <==> op_readable(*d, buffer_bytes(*buf), g as int, ii as int, dd as int, aa as int, si as int),
        r matches Some(op) ==> read_matches(op, *d, buffer_bytes(*buf), g as int, ii as int, dd as int, aa as int, si as int, id),
{
    if g >= d.ops.len() {
        return None;
    }
    let oe = d.ops[g];
    let n = d.clients.len();
    if oe.type_ == 0 {
        if ii >= d.inserts.len() {
            return None;
        }
        let e = d.inserts[ii];
        if (e.left_client != u32::MAX && e.left_client as usize >= n) || (e.right_client != u32::MAX
            && e.right_client as usize >= n) {
            return None;
        }
        let total = crate::bytes::buffer_len(buf);
        if e.len as usize > total || si > total - e.len as usize {
            return None;
        }
        let left = if e.left_client != u32::MAX {
            Some(OpID { client: d.clients[e.left_client as usize], counter: e.left_counter })
        } else {
            None
        };
        let right = if e.right_client != u32::MAX {
            Some(OpID { client: d.clients[e.right_client as usize], counter: e.right_counter })
        } else {
            None
        };
        let text = buffer_slice(buf, si, si + e.len as usize);
        let op = Op {
            id,
            lamport: oe.lamport,
            content: OpContent::Text(TextInsertOp { text, left, right }),
        };
        proof {
            assert(text_bytes_of(op) == slice_bytes(text));
        }
        Some(op)
    } else if oe.type_ == 1 {
        if dd >= d.deletes.len() {
            return None;
        }
        let e = d.deletes[dd];
        if e.start_client as usize >= n {
            return None;
        }
        let start = OpID { client: d.clients[e.start_client as usize], counter: e.start_counter };
        Some(Op { id, lamport: oe.lamport, content: OpContent::Del(DeleteOp { start, len: e.len }) })
    } else if oe.type_ == 2 {
        if aa >= d.annotations.len() {
            return None;
        }
        let e = d.annotations[aa];
        let s = &d.ann_types_and_values;
        if e.type_ as usize >= s.len() || e.value as usize >= s.len() {
            return None;
        }
        let value = match json_from_str(s[e.value as usize].as_str()) {
            Some(v) => v,
            None => {
                return None;
            },
        };
        let ann = Annotation {
            id,
            range_lamport: (oe.lamport, id),
            range: AnchorRange {
                start: Anchor {
                    id: e.start,
                    type_: if e.is_start_before_anchor {
                        AnchorType::Before
                    } else {
                        AnchorType::After
                    },
                },
                end: Anchor {
                    id: e.end,
                    type_: if e.is_end_before_anchor {
                        AnchorType::Before
                    } else {
                        AnchorType::After
                    },
                },
            },
            behavior: e.behavior,
            type_: s[e.type_ as usize].clone(),
            value,
        };
        Some(Op { id, lamport: oe.lamport, content: OpContent::Ann(Arc::new(ann)) })
    } else {
        None
    }
}


/// One step of a list read alike to a list of `l`: reading the alike
/// operation next keeps the lists read alike.
proof fn lemma_read_step(l: Seq<Seq<Op>>, res: Seq<Seq<Op>>, cur: Seq<Op>, op: Op)
    requires
        read_so_far(l, res, cur),
        res.len() < l.len(),
        cur.len() < l[res.len() as int].len(),
        op_equiv(op, l[res.len() as int][cur.len() as int]),
    ensures
        read_so_far(l, res, cur.push(op)),
        flat(l)[(flat(res).len() + cur.len()) as int] == l[res.len() as int][cur.len() as int],
{
    let k = res.len() as int;
    let j = cur.len() as int;
    lemma_flat_index(l, k, j);
    let g = flat(res).len() + j;
    assert(l[k].take(j + 1) =~= l[k].take(j).push(l[k][j]));
    assert(flat(l).take(g + 1) =~= flat(l).take(g).push(flat(l)[g]));
    assert(flat(res) + cur.push(op) =~= (flat(res) + cur).push(op));
    let a = cur.push(op);
    let b = l[k].take(j + 1);
    assert forall|i: int| 0 <= i < a.len() implies #[trigger] op_equiv(a[i], b[i]) by {
        if i < j {
            assert(op_equiv(cur[i], l[k].take(j)[i]));
        }
    }
    let a2 = (flat(res) + cur).push(op);
    let b2 = flat(l).take(g + 1);
    assert forall|i: int| 0 <= i < a2.len() implies #[trigger] op_equiv(a2[i], b2[i]) by {
        if i < g {
            assert(op_equiv((flat(res) + cur)[i], flat(l).take(g)[i]));
        }
    }
}

/// Finishing a list read alike to the next list of `l`.
proof fn lemma_read_list_done(l: Seq<Seq<Op>>, res: Seq<Seq<Op>>, cur: Seq<Op>)
    requires
        read_so_far(l, res, cur),
        res.len() < l.len(),
        cur.len() == l[res.len() as int].len(),
    ensures
        read_so_far(l, res.push(cur), Seq::empty()),
        flat(res.push(cur)) == flat(res) + cur,
{
    let k = res.len() as int;
    let res2 = res.push(cur);
    lemma_flat_step(res2, k);
    assert(res2.take(k + 1) =~= res2);
    assert(res2.take(k) =~= res);
    lemma_flat_step(l, k);
    assert(l[k].take(cur.len() as int) =~= l[k]);
    assert(flat(res2) + Seq::<Op>::empty() =~= flat(res) + cur);
    assert forall|k2: int| 0 <= k2 < k + 1 implies lists_equiv(#[trigger] res2[k2], l[k2]) by {
        if k2 < k {
            assert(res2[k2] == res[k2]);
        }
    }
    let e = Seq::<Op>::empty();
    if k + 1 < l.len() {
        assert(lists_equiv(e, l[k + 1].take(0)));
    }
}

/// The lists of operations a layout stands for, by peer (see [`decodes`]).
/// `Ok` exactly when the layout stands for some lists, and then those lists,
/// as far as [`op_equiv`] tells operations apart; `Err(DecodeError)`
/// otherwise.
#[verifier::rlimit(100)]
pub fn from_doc_encoding(exported: DocEncoding) -> (r: Result<FxHashMap<ClientID, Vec<Op>>, Error>)
    ensures
        r is Err ==> r == Err::<FxHashMap<ClientID, Vec<Op>>, Error>(Error::DecodeError),
        r matches Ok(m) ==> exists|l: Seq<Seq<Op>>|
            #[trigger] decodes(exported, l) && m@.dom() == exported.clients@.take(
                list_count(exported),
            ).to_set() && forall|k: int|
                0 <= k < l.len() ==> #[trigger] m@[exported.clients@[k]]@ == l[k],
        forall|l: Seq<Seq<Op>>| #[trigger]
            decodes(exported, l) ==> (r matches Ok(m) && forall|k: int|
                0 <= k < l.len() ==> lists_equiv(#[trigger] m@[exported.clients@[k]]@, l[k])),
{
    let d = &exported;
    let mut buf = buffer_new();
    if d.compressed_str {
        match gunzip(d.str.as_slice()) {
            Some(v) => buffer_push_slice(&mut buf, v.as_slice()),
            None => {
                return Err(Error::DecodeError);
            },
        }
    } else {
        buffer_push_slice(&mut buf, d.str.as_slice());
    }
    let ghost raw = buffer_bytes(buf);
    proof {
        assert(stored_text(*d) == Some(raw));
    }
    let a = d.clients.len();
    let b = d.op_len.len();
    let c = d.start_counters.len();
    let n: usize = if a <= b && a <= c {
        a
    } else if b <= c {
        b
    } else {
        c
    };
    let n_ops = d.ops.len();
    let n_inserts = d.inserts.len();
    let n_deletes = d.deletes.len();
    let n_text = crate::bytes::buffer_len(&buf);
    let mut ans: FxHashMap<ClientID, Vec<Op>> = fx_map_new();
    let ghost mut res: Seq<Seq<Op>> = Seq::empty();
    let mut g: usize = 0;
    let mut ii: usize = 0;
    let mut dd: usize = 0;
    let mut aa: usize = 0;
    let mut si: usize = 0;
    let mut k: usize = 0;
    proof {
        assert(flat(res) =~= Seq::<Op>::empty());
        assert(raw.take(0) =~= Seq::<u8>::empty());
        assert(d.clients@.take(0) =~= Seq::<ClientID>::empty());
        assert(ans@.dom() =~= d.clients@.take(0).to_set());
        assert forall|l: Seq<Seq<Op>>| #[trigger] decodes(*d, l) implies read_so_far(l, res, Seq::empty()) by {
            assert(l.take(0) =~= Seq::<Seq<Op>>::empty());
            assert(flat(res) + Seq::<Op>::empty() =~= Seq::<Op>::empty());
            assert(flat(l).take(0) =~= Seq::<Op>::empty());
            if 0 < l.len() {
                assert(lists_equiv(Seq::<Op>::empty(), l[0].take(0)));
            }
        }
    }
    while k < n
        invariant
            *d == exported,
            raw == buffer_bytes(buf),
            stored_text(*d) == Some(raw),
            n_ops == d.ops@.len(),
            n_inserts == d.inserts@.len(),
            n_deletes == d.deletes@.len(),
            n_text == raw.len(),
            n == list_count(*d),
            0 <= k <= n,
            res.len() == k,
            forall|k2: int|
                0 <= k2 < k ==> (#[trigger] res[k2]).len() == d.op_len@[k2] && chain_ok(
                    res[k2],
                    d.clients@[k2],
                    d.start_counters@[k2],
                ),
            d.clients@.take(k as int).no_duplicates(),
            ans@.dom() == d.clients@.take(k as int).to_set(),
            forall|k2: int| 0 <= k2 < k ==> #[trigger] ans@[d.clients@[k2]]@ == res[k2],
            g == flat(res).len(),
            ii == count_kind(flat(res), 0),
            dd == count_kind(flat(res), 1),
            aa == count_kind(flat(res), 2),
            si == all_text(flat(res)).len(),
            columns_hold(*d, flat(res), raw),
            forall|l: Seq<Seq<Op>>| #[trigger] decodes(*d, l) ==> read_so_far(l, res, Seq::empty()),
        decreases n - k,
    {
        let client = d.clients[k];
        proof {
            assert(d.clients@.take(k as int + 1) =~= d.clients@.take(k as int).push(client));
        }
        if fx_map_get(&ans, client).is_some() {
            proof {
                assert forall|l: Seq<Seq<Op>>| #[trigger] decodes(*d, l) implies false by {
                    let t = d.clients@.take(list_count(*d));
                    assert(t[k as int] == client);
                    let w = choose|i: int| 0 <= i < k && d.clients@.take(k as int)[i] == client;
                    assert(t[w] == client);
                }
            }
            return Err(Error::DecodeError);
        }
        let cnt = d.op_len[k];
        let start = d.start_counters[k];
        let mut counter: u32 = start;
        let mut arr: Vec<Op> = Vec::new();
        let mut j: u32 = 0;
        proof {
            assert(flat(res) + arr@ =~= flat(res));
        }
        while j < cnt
            invariant
                *d == exported,
                raw == buffer_bytes(buf),
                stored_text(*d) == Some(raw),
                n_ops == d.ops@.len(),
                n_inserts == d.inserts@.len(),
                n_deletes == d.deletes@.len(),
                n_text == raw.len(),
                n == list_count(*d),
                0 <= k < n,
                res.len() == k,
                client == d.clients@[k as int],
                cnt == d.op_len@[k as int],
                start == d.start_counters@[k as int],
                arr@.len() == j,
                j <= cnt,
                chain_ok(arr@, client, start),
                j == 0 ==> counter == start,
                j > 0 ==> counter == arr@[j - 1].id.counter + op_len(arr@[j - 1]),
                g == (flat(res) + arr@).len(),
                ii == count_kind(flat(res) + arr@, 0),
                dd == count_kind(flat(res) + arr@, 1),
                aa == count_kind(flat(res) + arr@, 2),
                si == all_text(flat(res) + arr@).len(),
                columns_hold(*d, flat(res) + arr@, raw),
                forall|l: Seq<Seq<Op>>| #[trigger] decodes(*d, l) ==> read_so_far(l, res, arr@),
            decreases cnt - j,
        {
            let id = OpID { client, counter };
            let ghost fd = flat(res) + arr@;
            proof {
                assert forall|l: Seq<Seq<Op>>| #[trigger] decodes(*d, l) implies read_matches(
                    l[k as int][j as int],
                    *d,
                    raw,
                    g as int,
                    ii as int,
                    dd as int,
                    aa as int,
                    si as int,
                    id,
                ) by {
                    let f = flat(l);
                    lemma_flat_index(l, k as int, j as int);
                    let lo = l[k as int][j as int];
                    assert(f[g as int] == lo);
                    lemma_equiv_counts(fd, f.take(g as int), 0);
                    lemma_equiv_counts(fd, f.take(g as int), 1);
                    lemma_equiv_counts(fd, f.take(g as int), 2);
                    lemma_count_step(f, g as int, kind(lo));
                    assert(d.ops@[g as int] == (OpEncoding { lamport: f[g as int].lamport, type_: kind(f[g as int]) }));
                    assert(part_decodes(f[g as int], *d, count_kind(f.take(g as int), kind(f[g as int])) as int));
                    assert(chain_ok(l[k as int], d.clients@[k as int], d.start_counters@[k as int]));
                    if j > 0 {
                        assert(op_equiv(arr@[j - 1], l[k as int].take(j as int)[j - 1]));
                        lemma_equiv_same_shape(arr@[j - 1], l[k as int][j - 1]);
                    }
                    // the text of the operation, within the stored text
                    assert(f.take(g as int + 1).drop_last() =~= f.take(g as int));
                    lemma_all_text_prefix(f, g as int + 1);
                    let p = all_text(f.take(g as int));
                    let tb = text_bytes_of(lo);
                    assert(all_text(f.take(g as int + 1)) == p + tb);
                    assert(raw.take(all_text(f).len() as int) == all_text(f));
                    assert(tb =~= raw.subrange(si as int, si + tb.len())) by {
                        assert(all_text(f).take((p.len() + tb.len()) as int) == p + tb);
                        assert forall|i: int| 0 <= i < tb.len() implies tb[i] == raw[si + i] by {
                            assert((p + tb)[p.len() + i] == tb[i]);
                            assert(all_text(f)[p.len() + i] == tb[i]);
                            assert(raw.take(all_text(f).len() as int)[p.len() + i] == raw[p.len() + i]);
                        }
                    }
                }
            }
            let op = match decode_op(d, &buf, g, ii, dd, aa, si, id) {
                Some(op) => op,
                None => {
                    proof {
                        assert forall|l: Seq<Seq<Op>>| #[trigger] decodes(*d, l) implies false by {
                            let lo = l[k as int][j as int];
                            lemma_read_unique(lo, lo, *d, raw, g as int, ii as int, dd as int, aa as int, si as int, id);
                        }
                    }
                    return Err(Error::DecodeError);
                },
            };
            assert(read_matches(op, *d, raw, g as int, ii as int, dd as int, aa as int, si as int, id));
            proof {
                assert forall|l: Seq<Seq<Op>>| #[trigger] decodes(*d, l) implies op_equiv(op, l[k as int][j as int]) by {
                    let lo = l[k as int][j as int];
                    lemma_read_unique(lo, op, *d, raw, g as int, ii as int, dd as int, aa as int, si as int, id);
                    lemma_read_unique(op, lo, *d, raw, g as int, ii as int, dd as int, aa as int, si as int, id);
                }
            }
            let len = op.rle_len();
            if counter as u64 + len as u64 > u32::MAX as u64 {
                proof {
                    assert forall|l: Seq<Seq<Op>>| #[trigger] decodes(*d, l) implies false by {
                        let lo = l[k as int][j as int];
                        lemma_equiv_same_shape(op, lo);
                        assert(chain_ok(l[k as int], d.clients@[k as int], d.start_counters@[k as int]));
                    }
                }
                return Err(Error::DecodeError);
            }
            let t = d.ops[g].type_;
            assert(t == kind(op));
            if t == 0 {
                si = si + d.inserts[ii].len as usize;
                ii = ii + 1;
            } else if t == 1 {
                dd = dd + 1;
            } else {
                aa = aa + 1;
            }
            proof {
                lemma_columns_push(*d, fd, raw, op);
                assert(fd.push(op) =~= flat(res) + arr@.push(op));
                assert forall|l: Seq<Seq<Op>>| #[trigger] decodes(*d, l) implies read_so_far(
                    l,
                    res,
                    arr@.push(op),
                ) by {
                    lemma_read_step(l, res, arr@, op);
                }
            }
            counter = (counter as u64 + len as u64) as u32;
            arr.push(op);
            g = g + 1;
            j = j + 1;
        }
        let ghost cur = arr@;
        proof {
            assert forall|l: Seq<Seq<Op>>| #[trigger] decodes(*d, l) implies read_so_far(
                l,
                res.push(cur),
                Seq::empty(),
            ) by {
                lemma_read_list_done(l, res, cur);
            }
            let res2 = res.push(cur);
            lemma_flat_step(res2, k as int);
            assert(res2.take(k as int + 1) =~= res2);
            assert(res2.take(k as int) =~= res);
        }
        fx_map_insert(&mut ans, client, arr);
        proof {
            res = res.push(cur);
            assert(d.clients@.take(k as int + 1).to_set() =~= d.clients@.take(k as int).to_set().insert(client));
        }
        k = k + 1;
    }
    proof {
        assert(d.clients@.take(n as int) == d.clients@.take(list_count(*d)));
        assert(decodes(*d, res));
        assert forall|l: Seq<Seq<Op>>| #[trigger] decodes(*d, l) implies forall|k2: int|
            0 <= k2 < l.len() ==> lists_equiv(#[trigger] ans@[d.clients@[k2]]@, l[k2]) by {
            assert(read_so_far(l, res, Seq::empty()));
        }
    }
    Ok(ans)
}


/// Each annotation among `f` carries its operation's id and lamport, and a
/// value that reads back from its JSON text.
pub open spec fn anns_restorable(f: Seq<Op>) -> bool {
    forall|g: int|
        0 <= g < f.len() ==> match (#[trigger] f[g]).content {
            OpContent::Ann(a) => {
                &&& a.id == f[g].id
                &&& a.range_lamport == (f[g].lamport, f[g].id)
                &&& json_parse(json_text(a.value)) == Some(a.value)
            },
            _ => true,
        }
}

/// The layout of the peers' histories stands for those histories: when `d`
/// lays out the lists `l` of the peers `keys` (no peer twice), each list
/// continuing its peer's counters from its first operation on, and every
/// annotation can be restored from what is stored of it, then `d` decodes to
/// `l`, so that [`from_doc_encoding`] gives back lists alike to `l`.
pub proof fn lemma_layout_decodes(d: DocEncoding, keys: Seq<ClientID>, l: Seq<Seq<Op>>)
    requires
        encodes(d, keys, l),
        keys.no_duplicates(),
        forall|k: int| 0 <= k < l.len() ==> chain_ok(#[trigger] l[k], keys[k], l[k][0].id.counter),
        anns_restorable(flat(l)),
    ensures
        decodes(d, l),
{
    let f = flat(l);
    let raw = all_text(f);
    assert(list_count(d) == l.len());
    assert forall|k: int| 0 <= k < l.len() implies d.clients@[k] == keys[k] by {
        assert(l[k].len() > 0);
    }
    assert(d.clients@.take(l.len() as int) =~= keys);
    assert(stored_text(d) == Some(raw));
    assert(raw.take(raw.len() as int) =~= raw);
    assert forall|g: int| 0 <= g < f.len() implies #[trigger] part_decodes(
        f[g],
        d,
        count_kind(f.take(g), kind(f[g])) as int,
    ) by {
        let i = count_kind(f.take(g), kind(f[g])) as int;
        assert(crate::encoding::part_ok(f[g], d, i));
        match f[g].content {
            OpContent::Ann(a) => {
                assert(a.range.start.type_ == AnchorType::Before || a.range.start.type_ == AnchorType::After);
                assert(a.range.end.type_ == AnchorType::Before || a.range.end.type_ == AnchorType::After);
            },
            _ => {},
        }
    }
    assert forall|k: int| 0 <= k < l.len() implies (#[trigger] l[k]).len() == d.op_len@[k] && chain_ok(
        l[k],
        d.clients@[k],
        d.start_counters@[k],
    ) by {
        assert(chain_ok(l[k], keys[k], l[k][0].id.counter));
    }
}

} // verus!
