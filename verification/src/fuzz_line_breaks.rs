//! Random edit scripts for documents with line breaks: inserting decimal
//! numbers (optionally followed by `'\n'`) and deleting ranges, replayed on a
//! document and on a plain string.
use vstd::prelude::*;
use vstd::utf8::*;

use crate::rich_text::RichText;
use crate::utf16::{bytes_to_str, text_of};

verus! {

broadcast use vstd::seq_lib::group_seq_properties;

/// One edit of a script.
#[derive(Clone, Copy, Debug)]
pub enum Action {
    Insert { index: u16, content: u16, has_line_break: bool },
    Delete { index: u16, len: u8 },
}

/// The decimal digits of `n`, as ASCII bytes.
pub open spec fn decimal(n: nat) -> Seq<u8>
    decreases n,
{
    if n < 10 {
        seq![(48 + n) as u8]
    } else {
        decimal(n / 10) + seq![(48 + n % 10) as u8]
    }
}

/// The bytes an insertion adds: the number, then a line break if asked.
pub open spec fn inserted(content: u16, has_line_break: bool) -> Seq<u8> {
    decimal(content as nat) + if has_line_break {
        seq![10u8]
    } else {
        Seq::empty()
    }
}

/// An action made to fit a text of `len` bytes, and the text length after
/// it: the insertion index is taken modulo `len + 1`, the deletion index
/// modulo `len` and its length modulo what is left after the index (nothing
/// is deleted from an empty text).
pub open spec fn fit_action(a: Action, len: nat) -> (Action, nat) {
    match a {
        Action::Insert { index, content, has_line_break } => (
            Action::Insert {
                index: (index as nat % (len + 1)) as u16,
                content,
                has_line_break,
            },
            len + inserted(content, has_line_break).len(),
        ),
        Action::Delete { index, len: del_len } => if len == 0 {
            (Action::Delete { index: 0, len: 0 }, len)
        } else {
            let i = index as nat % len;
            let d = del_len as nat % ((len - i) as nat);
            (Action::Delete { index: i as u16, len: d as u8 }, (len - d) as nat)
        },
    }
}

/// The text length after fitting and replaying `s` from an empty text.
pub open spec fn len_after(s: Seq<Action>) -> nat
    decreases s.len(),
{
    if s.len() == 0 {
        0
    } else {
        fit_action(s.last(), len_after(s.drop_last())).1
    }
}

/// The script `s` with every action fitted to the text before it.
pub open spec fn preprocessed(s: Seq<Action>) -> Seq<Action> {
    Seq::new(s.len(), |i: int| fit_action(s[i], len_after(s.take(i))).0)
}

/// The text that replaying `s` on an empty text gives.
pub open spec fn str_apply(s: Seq<Action>) -> Seq<u8>
    decreases s.len(),
{
    if s.len() == 0 {
        Seq::empty()
    } else {
        let t = str_apply(s.drop_last());
        match s.last() {
            Action::Insert { index, content, has_line_break } => t.take(index as int) + inserted(
                content,
                has_line_break,
            ) + t.skip(index as int),
            Action::Delete { index, len } => t.take(index as int) + t.skip(index + len),
        }
    }
}

/// Every action of `s` stays inside the text it applies to.
pub open spec fn in_bounds(s: Seq<Action>) -> bool
    decreases s.len(),
{
    if s.len() == 0 {
        true
    } else {
        &&& in_bounds(s.drop_last())
        &&& match s.last() {
            Action::Insert { index, .. } => index <= str_apply(s.drop_last()).len(),
            Action::Delete { index, len } => index + len <= str_apply(s.drop_last()).len(),
        }
    }
}

/// Bytes below 128.
pub open spec fn ascii(b: Seq<u8>) -> bool {
    forall|i: int| 0 <= i < b.len() ==> #[trigger] b[i] < 128
}

/// A number has at most five digits, all ASCII.
pub proof fn lemma_decimal(n: nat)
    ensures
        1 <= decimal(n).len(),
        n < 10 ==> decimal(n).len() <= 1,
        n < 100 ==> decimal(n).len() <= 2,
        n < 1000 ==> decimal(n).len() <= 3,
        n < 10000 ==> decimal(n).len() <= 4,
        n < 100000 ==> decimal(n).len() <= 5,
        ascii(decimal(n)),
    decreases n,
{
    if n >= 10 {
        lemma_decimal(n / 10);
    }
}

/// The decimal digits of `n`.
pub fn decimal_bytes(n: u16) -> (v: Vec<u8>)
    ensures
        v@ == decimal(n as nat),
    decreases n,
{
    if n < 10 {
        let mut v: Vec<u8> = Vec::new();
        v.push(48 + n as u8);
        proof {
            assert(v@ =~= decimal(n as nat));
        }
        v
    } else {
        let mut v = decimal_bytes(n / 10);
        v.push(48 + (n % 10) as u8);
        proof {
            assert(v@ =~= decimal(n as nat));
        }
        v
    }
}

/// The bytes of an insertion.
fn inserted_bytes(content: u16, has_line_break: bool) -> (v: Vec<u8>)
    ensures
        v@ == inserted(content, has_line_break),
{
    let mut v = decimal_bytes(content);
    if has_line_break {
        v.push(10);
    }
    proof {
        assert(v@ =~= inserted(content, has_line_break));
    }
    v
}

/// The length after a prefix of the script, and the fitted action, are
/// bounded by six bytes an action.
pub proof fn lemma_len_after_bound(s: Seq<Action>)
    ensures
        len_after(s) <= 6 * s.len(),
    decreases s.len(),
{
    if s.len() > 0 {
        lemma_len_after_bound(s.drop_last());
        match s.last() {
            Action::Insert { content, .. } => {
                lemma_decimal(content as nat);
            },
            _ => {},
        }
    }
}

/// Fits every action of the script to the text before it, so that the
/// script replays without leaving the text.
pub fn preprocess(actions: &mut [Action])
    ensures
        final(actions)@ == preprocessed(old(actions)@),
{
    let ghost orig = actions@;
    let n = actions.len();
    let mut len: u128 = 0;
    let mut i: usize = 0;
    proof {
        assert(orig.take(0) =~= Seq::<Action>::empty());
    }
    while i < n
        invariant
            actions@.len() == orig.len(),
            n == orig.len(),
            0 <= i <= orig.len(),
            len == len_after(orig.take(i as int)),
            forall|j: int| 0 <= j < i ==> actions@[j] == fit_action(orig[j], len_after(orig.take(j))).0,
            forall|j: int| i <= j < orig.len() ==> actions@[j] == orig[j],
        decreases orig.len() - i,
    {
        proof {
            lemma_len_after_bound(orig.take(i as int));
            assert(orig.take(i as int + 1).drop_last() =~= orig.take(i as int));
        }
        let a = actions[i];
        let fitted = match a {
            Action::Insert { index, content, has_line_break } => {
                let idx = ((index as u128) % (len + 1)) as u16;
                let added = inserted_bytes(content, has_line_break).len();
                proof {
                    lemma_decimal(content as nat);
                }
                len = len + added as u128;
                Action::Insert { index: idx, content, has_line_break }
            },
            Action::Delete { index, len: del_len } => {
                if len == 0 {
                    Action::Delete { index: 0, len: 0 }
                } else {
                    let idx: u128 = (index as u128) % len;
                    let d: u128 = (del_len as u128) % (len - idx);
                    len = len - d;
                    Action::Delete { index: idx as u16, len: d as u8 }
                }
            },
        };
        actions[i] = fitted;
        i = i + 1;
    }
    proof {
        assert(actions@ =~= preprocessed(orig));
    }
}

/// Fitting a fitted action again to the same length changes nothing.
proof fn lemma_fit_idempotent(a: Action, len: nat)
    ensures
        fit_action(fit_action(a, len).0, len) == fit_action(a, len),
{
    match a {
        Action::Insert { index, content, has_line_break } => {
            let i = index as nat % (len + 1);
            assert(i <= index) by (nonlinear_arith)
                requires
                    i == index as nat % (len + 1),
                    len + 1 > 0,
            ;
            assert((i as u16) as nat == i);
            assert(i % (len + 1) == i) by (nonlinear_arith)
                requires
                    i < len + 1,
            ;
        },
        Action::Delete { index, len: del_len } => {
            if len > 0 {
                let i = index as nat % len;
                let d = del_len as nat % ((len - i) as nat);
                assert(i <= index) by (nonlinear_arith)
                    requires
                        i == index as nat % len,
                        len > 0,
                ;
                assert(d <= del_len) by (nonlinear_arith)
                    requires
                        d == del_len as nat % ((len - i) as nat),
                        len - i > 0,
                ;
                assert((i as u16) as nat == i);
                assert((d as u8) as nat == d);
                assert(i % len == i) by (nonlinear_arith)
                    requires
                        i < len,
                ;
                assert(d % ((len - i) as nat) == d) by (nonlinear_arith)
                    requires
                        d < len - i,
                ;
            }
        },
    }
}

/// The fitted script leaves the text as long as the script does, action by
/// action.
proof fn lemma_len_after_preprocessed(s: Seq<Action>, n: int)
    requires
        0 <= n <= s.len(),
    ensures
        len_after(preprocessed(s).take(n)) == len_after(s.take(n)),
    decreases n,
{
    if n > 0 {
        let p = preprocessed(s);
        lemma_len_after_preprocessed(s, n - 1);
        assert(p.take(n).drop_last() =~= p.take(n - 1));
        assert(s.take(n).drop_last() =~= s.take(n - 1));
        lemma_fit_idempotent(s[n - 1], len_after(s.take(n - 1)));
    }
}

/// Preprocessing is idempotent: a fitted script is left as it is.
pub proof fn lemma_preprocess_idempotent(s: Seq<Action>)
    ensures
        preprocessed(preprocessed(s)) == preprocessed(s),
        len_after(preprocessed(s)) == len_after(s),
{
    let p = preprocessed(s);
    assert forall|i: int| 0 <= i < p.len() implies #[trigger] preprocessed(p)[i] == p[i] by {
        lemma_len_after_preprocessed(s, i);
        lemma_fit_idempotent(s[i], len_after(s.take(i)));
    }
    assert(preprocessed(p) =~= p);
    lemma_len_after_preprocessed(s, s.len() as int);
    assert(p.take(s.len() as int) =~= p);
    assert(s.take(s.len() as int) =~= s);
}

/// Replaying a preprocessed script stays in bounds.
pub proof fn lemma_preprocessed_in_bounds(s: Seq<Action>)
    ensures
        in_bounds(preprocessed(s)),
        str_apply(preprocessed(s)).len() == len_after(s),
    decreases s.len(),
{
    if s.len() > 0 {
        let p = preprocessed(s);
        let q = s.drop_last();
        lemma_preprocessed_in_bounds(q);
        assert(p.drop_last() =~= preprocessed(q)) by {
            assert forall|i: int| 0 <= i < q.len() implies p.drop_last()[i] == preprocessed(q)[i] by {
                assert(s.take(i) =~= q.take(i));
            }
        }
        assert(s.take(s.len() - 1) =~= q);
        let len = len_after(q);
        let t = str_apply(preprocessed(q));
        assert(p.last() == fit_action(s.last(), len).0);
        match s.last() {
            Action::Insert { index, content, has_line_break } => {
                let idx = (index as nat % (len + 1)) as int;
                assert(idx <= len && idx <= index) by (nonlinear_arith)
                    requires
                        idx == (index as nat % (len + 1)) as int,
                        len >= 0,
                ;
                assert(((index as nat % (len + 1)) as u16) as int == idx);
                assert(str_apply(p) == t.take(idx) + inserted(content, has_line_break) + t.skip(idx));
            },
            Action::Delete { index, len: del_len } => {
                if len > 0 {
                    let i = (index as nat % len) as int;
                    assert(i < len && i <= index) by (nonlinear_arith)
                        requires
                            i == (index as nat % len) as int,
                            len > 0,
                    ;
                    let d = (del_len as nat % ((len - i) as nat)) as int;
                    assert(d < len - i && d <= del_len) by (nonlinear_arith)
                        requires
                            d == (del_len as nat % ((len - i) as nat)) as int,
                            len - i > 0,
                    ;
                    assert(((index as nat % len) as u16) as int == i);
                    assert((d as u8) as int == d);
                    assert(i + d <= len);
                    assert(str_apply(p) == t.take(i) + t.skip(i + d));
                } else {
                    assert(str_apply(p) == t.take(0) + t.skip(0));
                }
            },
        }
    }
}

/// Replaying an in-bounds script gives ASCII text.
pub proof fn lemma_str_apply_ascii(s: Seq<Action>)
    requires
        in_bounds(s),
    ensures
        ascii(str_apply(s)),
    decreases s.len(),
{
    if s.len() > 0 {
        lemma_str_apply_ascii(s.drop_last());
        let t = str_apply(s.drop_last());
        match s.last() {
            Action::Insert { index, content, has_line_break } => {
                lemma_decimal(content as nat);
                let r = str_apply(s);
                assert forall|i: int| 0 <= i < r.len() implies #[trigger] r[i] < 128 by {
                    if i < index {
                        assert(r[i] == t[i]);
                    } else if i < index + inserted(content, has_line_break).len() {
                        assert(r[i] == inserted(content, has_line_break)[i - index]);
                    } else {
                        assert(r[i] == t[i - inserted(content, has_line_break).len()]);
                    }
                }
            },
            Action::Delete { index, len } => {
                let r = str_apply(s);
                assert forall|i: int| 0 <= i < r.len() implies #[trigger] r[i] < 128 by {
                    if i < index {
                        assert(r[i] == t[i]);
                    } else {
                        assert(r[i] == t[i + len]);
                    }
                }
            },
        }
    }
}

/// ASCII bytes are valid UTF-8, and every index of them is a character
/// boundary.
pub proof fn lemma_ascii_valid(b: Seq<u8>)
    requires
        ascii(b),
    ensures
        valid_utf8(b),
        forall|i: int| 0 <= i <= b.len() ==> #[trigger] is_char_boundary(b, i),
{
    let c = Seq::new(b.len(), |i: int| b[i] as char);
    assert(is_ascii_chars(c)) by {
        assert forall|i: int| 0 <= i < c.len() implies #[trigger] (c[i] as u32) < 128 by {
            assert(c[i] as u32 == b[i] as u32);
        }
    }
    is_ascii_chars_encode_utf8(c);
    assert(encode_utf8(c) =~= b);
    encode_utf8_valid_utf8(c);
    is_char_boundary_start_end_of_seq(b);
    assert forall|i: int| 0 <= i <= b.len() implies #[trigger] is_char_boundary(b, i) by {
        if i < b.len() {
            is_char_boundary_iff_not_is_continuation_byte(b, i);
        }
    }
}

/// The string of ASCII bytes.
pub(crate) fn ascii_str(v: &Vec<u8>) -> (s: &str)
    requires
        ascii(v@),
    ensures
        encode_utf8(s@) == v@,
{
    proof {
        lemma_ascii_valid(v@);
    }
    bytes_to_str(v.as_slice())
}

/// Replays the script on a plain string.
pub fn apply_to_str(actions: &[Action]) -> (r: String)
    requires
        in_bounds(actions@),
    ensures
        encode_utf8(r@) == str_apply(actions@),
{
    let mut ans: Vec<u8> = Vec::new();
    let mut i: usize = 0;
    proof {
        assert(actions@.take(0) =~= Seq::<Action>::empty());
    }
    while i < actions.len()
        invariant
            0 <= i <= actions@.len(),
            in_bounds(actions@),
            ans@ == str_apply(actions@.take(i as int)),
        decreases actions@.len() - i,
    {
        let ghost p = actions@.take(i as int + 1);
        proof {
            assert(p.drop_last() =~= actions@.take(i as int));
            lemma_in_bounds_prefix(actions@, i as int + 1);
        }
        match actions[i] {
            Action::Insert { index, content, has_line_break } => {
                let add = inserted_bytes(content, has_line_break);
                let mut next: Vec<u8> = Vec::new();
                let mut j: usize = 0;
                let idx = index as usize;
                while j < idx
                    invariant
                        idx <= ans@.len(),
                        0 <= j <= idx,
                        next@ == ans@.take(j as int),
                    decreases idx - j,
                {
                    next.push(ans[j]);
                    proof {
                        assert(next@ =~= ans@.take(j as int + 1));
                    }
                    j = j + 1;
                }
                next.extend_from_slice(add.as_slice());
                let mut j: usize = idx;
                let ghost head = next@;
                while j < ans.len()
                    invariant
                        idx <= j <= ans@.len(),
                        next@ == head + ans@.subrange(idx as int, j as int),
                    decreases ans@.len() - j,
                {
                    next.push(ans[j]);
                    proof {
                        assert(next@ =~= head + ans@.subrange(idx as int, j as int + 1));
                    }
                    j = j + 1;
                }
                proof {
                    assert(next@ =~= str_apply(p));
                }
                ans = next;
            },
            Action::Delete { index, len } => {
                let idx = index as usize;
                let stop = idx + len as usize;
                let mut next: Vec<u8> = Vec::new();
                let mut j: usize = 0;
                while j < ans.len()
                    invariant
                        stop <= ans@.len(),
                        idx <= stop,
                        0 <= j <= ans@.len(),
                        next@ == ans@.take(if j < idx {
                            j as int
                        } else {
                            idx as int
                        }) + if j > stop {
                            ans@.subrange(stop as int, j as int)
                        } else {
                            Seq::empty()
                        },
                    decreases ans@.len() - j,
                {
                    if j < idx || j >= stop {
                        next.push(ans[j]);
                    }
                    proof {
                        assert(next@ =~= ans@.take(if j + 1 < idx {
                            j + 1
                        } else {
                            idx as int
                        }) + if j + 1 > stop {
                            ans@.subrange(stop as int, j + 1)
                        } else {
                            Seq::empty()
                        });
                    }
                    j = j + 1;
                }
                proof {
                    assert(next@ =~= str_apply(p));
                }
                ans = next;
            },
        }
        i = i + 1;
    }
    proof {
        assert(actions@.take(actions@.len() as int) =~= actions@);
        lemma_str_apply_ascii(actions@);
    }
    ascii_str(&ans).to_owned()
}

/// A prefix of an in-bounds script is in bounds.
pub proof fn lemma_in_bounds_prefix(s: Seq<Action>, k: int)
    requires
        in_bounds(s),
        0 <= k <= s.len(),
    ensures
        in_bounds(s.take(k)),
    decreases s.len() - k,
{
    if k < s.len() {
        assert(s.take(k + 1).drop_last() =~= s.take(k));
        if k + 1 < s.len() {
            lemma_in_bounds_prefix(s, k + 1);
        } else {
            assert(s.take(k + 1) =~= s);
        }
    } else {
        assert(s.take(k) =~= s);
    }
}

/// Replays the script on a document: the document's text changes exactly as
/// the string does.
pub fn apply(text: &mut RichText, actions: &[Action])
    requires
        old(text).wf(),
        old(text).text() == Seq::<u8>::empty(),
        in_bounds(actions@),
        actions@.len() <= 0x100_0000,
        old(text).next_counter() == 0,
        old(text).next_lamport() == 0,
    ensures
        final(text).wf(),
        final(text).text() == str_apply(actions@),
{
    let mut i: usize = 0;
    proof {
        assert(actions@.take(0) =~= Seq::<Action>::empty());
    }
    while i < actions.len()
        invariant
            0 <= i <= actions@.len(),
            actions@.len() <= 0x100_0000,
            in_bounds(actions@),
            text.wf(),
            text.text() == str_apply(actions@.take(i as int)),
            text.next_counter() + text.text().len() <= 12 * i,
            text.next_lamport() + text.text().len() <= 12 * i,
        decreases actions@.len() - i,
    {
        let ghost p = actions@.take(i as int + 1);
        let ghost t = text.text();
        proof {
            assert(p.drop_last() =~= actions@.take(i as int));
            lemma_in_bounds_prefix(actions@, i as int + 1);
            lemma_str_apply_ascii(actions@.take(i as int));
            lemma_ascii_valid(t);
            lemma_len_bound(actions@.take(i as int));
        }
        match actions[i] {
            Action::Insert { index, content, has_line_break } => {
                let add = inserted_bytes(content, has_line_break);
                proof {
                    lemma_decimal(content as nat);
                    assert(ascii(add@));
                }
                let s = ascii_str(&add);
                text.insert(index as usize, s);
                proof {
                    assert(text.text() =~= str_apply(p));
                }
            },
            Action::Delete { index, len } => {
                text.delete(index as usize, index as usize + len as usize);
                proof {
                    assert(text.text() =~= str_apply(p));
                }
            },
        }
        i = i + 1;
    }
    proof {
        assert(actions@.take(actions@.len() as int) =~= actions@);
    }
}

/// The text of an in-bounds script grows by at most six bytes an action.
pub proof fn lemma_len_bound(s: Seq<Action>)
    requires
        in_bounds(s),
    ensures
        str_apply(s).len() <= 6 * s.len(),
    decreases s.len(),
{
    if s.len() > 0 {
        lemma_len_bound(s.drop_last());
        match s.last() {
            Action::Insert { content, .. } => {
                lemma_decimal(content as nat);
            },
            _ => {},
        }
    }
}

/// Replays a script, fitted first, on a new document and on a string, and
/// answers whether the two texts agree (they always do).
pub fn fuzzing_line_break(actions: Vec<Action>) -> (same: bool)
    requires
        actions@.len() <= 0x100_0000,
    ensures
        same,
{
    let mut actions = actions;
    let mut rich_text = RichText::new(1);
    let ghost orig = actions@;
    preprocess(actions.as_mut_slice());
    proof {
        lemma_preprocessed_in_bounds(orig);
    }
    apply(&mut rich_text, actions.as_slice());
    let s = apply_to_str(actions.as_slice());
    let r = rich_text.to_string();
    proof {
        lemma_str_apply_ascii(actions@);
        lemma_ascii_valid(str_apply(actions@));
        encode_utf8_decode_utf8(s@);
    }
    crate::str_eq(r.as_str(), s.as_str())
}

} // verus!
