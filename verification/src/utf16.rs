//! Text measures over UTF-8 encoded bytes: UTF-16 length, number of line
//! breaks, conversion of a UTF-16 index to a UTF-8 index and the byte offset
//! of the n-th line start.
use vstd::prelude::*;
use vstd::utf8::*;

verus! {

broadcast use vstd::seq_lib::group_seq_properties;

/// Number of UTF-16 code units of a character.
pub open spec fn utf16_units(c: char) -> nat {
    if (c as u32) >= 0x10000 {
        2
    } else {
        1
    }
}

/// Number of UTF-8 bytes of a character.
pub open spec fn utf8_width(c: char) -> nat {
    encode_scalar(c as u32).len()
}

/// Number of UTF-16 code units of a character sequence.
pub open spec fn utf16_len_of(chars: Seq<char>) -> nat
    decreases chars.len(),
{
    if chars.len() == 0 {
        0
    } else {
        utf16_len_of(chars.drop_last()) + utf16_units(chars.last())
    }
}

/// Number of `'\n'` in a character sequence.
pub open spec fn line_breaks_of(chars: Seq<char>) -> nat
    decreases chars.len(),
{
    if chars.len() == 0 {
        0
    } else {
        line_breaks_of(chars.drop_last()) + if chars.last() == '\n' {
            1nat
        } else {
            0nat
        }
    }
}

/// The UTF-8 byte offset reached after reading `k` UTF-16 code units from the
/// front of `chars`. A character of two code units is read whole, so an index
/// that falls inside a surrogate pair lands after the character; an index past
/// the end lands at the end.
pub open spec fn utf8_offset_of_utf16(chars: Seq<char>, k: int) -> nat
    decreases chars.len(),
{
    if k <= 0 || chars.len() == 0 {
        0
    } else {
        utf8_width(chars[0]) + utf8_offset_of_utf16(chars.drop_first(), k - utf16_units(chars[0]))
    }
}

/// The UTF-8 byte offset of the start of line `n` (line 0 starts at 0; line
/// `n` starts right after the `n`-th `'\n'`), or `None` when there are fewer
/// than `n` line breaks.
pub open spec fn line_start_of(chars: Seq<char>, n: nat) -> Option<nat>
    decreases chars.len(),
{
    if n == 0 {
        Some(0)
    } else if chars.len() == 0 {
        None
    } else {
        let w = utf8_width(chars[0]);
        let rest = if chars[0] == '\n' {
            line_start_of(chars.drop_first(), (n - 1) as nat)
        } else {
            line_start_of(chars.drop_first(), n)
        };
        match rest {
            Some(p) => Some(p + w),
            None => None,
        }
    }
}

/// The characters that `bytes` encode.
pub open spec fn text_of(bytes: Seq<u8>) -> Seq<char> {
    decode_utf8(bytes)
}

pub proof fn lemma_encode_utf8_push(chars: Seq<char>, c: char)
    ensures
        encode_utf8(chars.push(c)) == encode_utf8(chars) + encode_scalar(c as u32),
    decreases chars.len(),
{
    if chars.len() == 0 {
        assert(chars.push(c).drop_first() =~= Seq::<char>::empty());
        assert(encode_utf8(Seq::<char>::empty()) =~= Seq::<u8>::empty());
        assert(encode_utf8(chars.push(c)) =~= encode_scalar(c as u32));
    } else {
        assert(chars.push(c).drop_first() =~= chars.drop_first().push(c));
        lemma_encode_utf8_push(chars.drop_first(), c);
        assert(encode_utf8(chars.push(c)) =~= encode_scalar(chars[0] as u32) + encode_utf8(
            chars.drop_first().push(c),
        ));
    }
}

pub proof fn lemma_encode_utf8_take_step(chars: Seq<char>, i: int)
    requires
        0 <= i < chars.len(),
    ensures
        encode_utf8(chars.take(i + 1)) == encode_utf8(chars.take(i)) + encode_scalar(
            chars[i] as u32,
        ),
        encode_utf8(chars.take(i + 1)).len() == encode_utf8(chars.take(i)).len() + utf8_width(
            chars[i],
        ),
{
    assert(chars.take(i + 1) =~= chars.take(i).push(chars[i]));
    lemma_encode_utf8_push(chars.take(i), chars[i]);
}

pub proof fn lemma_encode_utf8_len_bound(chars: Seq<char>)
    ensures
        utf16_len_of(chars) <= encode_utf8(chars).len(),
        line_breaks_of(chars) <= encode_utf8(chars).len(),
    decreases chars.len(),
{
    if chars.len() > 0 {
        lemma_encode_utf8_len_bound(chars.drop_last());
        assert(chars =~= chars.drop_last().push(chars.last()));
        lemma_encode_utf8_push(chars.drop_last(), chars.last());
        char_is_scalar(chars.last());
    }
}

pub proof fn lemma_offset_bound(chars: Seq<char>, k: int)
    ensures
        utf8_offset_of_utf16(chars, k) <= encode_utf8(chars).len(),
    decreases chars.len(),
{
    if k > 0 && chars.len() > 0 {
        lemma_offset_bound(chars.drop_first(), k - utf16_units(chars[0]));
    }
}

pub proof fn lemma_line_start_bound(chars: Seq<char>, n: nat)
    ensures
        line_start_of(chars, n) matches Some(p) ==> p <= encode_utf8(chars).len(),
    decreases chars.len(),
{
    if n > 0 && chars.len() > 0 {
        if chars[0] == '\n' {
            lemma_line_start_bound(chars.drop_first(), (n - 1) as nat);
        } else {
            lemma_line_start_bound(chars.drop_first(), n);
        }
    }
}

/// Encoding a concatenation concatenates the encodings.
pub proof fn lemma_encode_utf8_concat(a: Seq<char>, b: Seq<char>)
    ensures
        encode_utf8(a + b) == encode_utf8(a) + encode_utf8(b),
    decreases b.len(),
{
    if b.len() == 0 {
        assert(a + b =~= a);
        assert(encode_utf8(b) =~= Seq::<u8>::empty());
        assert(encode_utf8(a) + encode_utf8(b) =~= encode_utf8(a));
    } else {
        lemma_encode_utf8_concat(a, b.drop_last());
        assert(a + b =~= (a + b.drop_last()).push(b.last()));
        assert(b =~= b.drop_last().push(b.last()));
        lemma_encode_utf8_push(a + b.drop_last(), b.last());
        lemma_encode_utf8_push(b.drop_last(), b.last());
        assert(encode_utf8(a + b) =~= encode_utf8(a) + encode_utf8(b));
    }
}

/// Decoding the concatenation of two valid UTF-8 sequences concatenates the
/// decodings, and the concatenation is valid UTF-8.
pub proof fn lemma_text_of_concat(a: Seq<u8>, b: Seq<u8>)
    requires
        valid_utf8(a),
        valid_utf8(b),
    ensures
        valid_utf8(a + b),
        text_of(a + b) == text_of(a) + text_of(b),
{
    decode_utf8_encode_utf8(a);
    decode_utf8_encode_utf8(b);
    lemma_encode_utf8_concat(decode_utf8(a), decode_utf8(b));
    encode_utf8_valid_utf8(decode_utf8(a) + decode_utf8(b));
    encode_utf8_decode_utf8(decode_utf8(a) + decode_utf8(b));
}

/// The UTF-16 length of a concatenation is the sum of the lengths.
pub proof fn lemma_utf16_len_concat(a: Seq<char>, b: Seq<char>)
    ensures
        utf16_len_of(a + b) == utf16_len_of(a) + utf16_len_of(b),
        line_breaks_of(a + b) == line_breaks_of(a) + line_breaks_of(b),
    decreases b.len(),
{
    if b.len() == 0 {
        assert(a + b =~= a);
    } else {
        lemma_utf16_len_concat(a, b.drop_last());
        assert((a + b).drop_last() =~= a + b.drop_last());
        assert((a + b).last() == b.last());
    }
}

/// UTF-16 indices round-trip: the UTF-16 index of the start of character
/// `i` leads back to the UTF-8 offset of that character.
pub proof fn lemma_utf16_round_trip(chars: Seq<char>, i: int)
    requires
        0 <= i <= chars.len(),
    ensures
        utf8_offset_of_utf16(chars, utf16_len_of(chars.take(i)) as int) == encode_utf8(chars.take(i)).len(),
    decreases chars.len(),
{
    if i == 0 {
        assert(chars.take(0) =~= Seq::<char>::empty());
    } else {
        let c = chars[0];
        let rest = chars.drop_first();
        lemma_utf16_round_trip(rest, i - 1);
        assert(chars.take(i) =~= seq![c] + rest.take(i - 1));
        lemma_utf16_len_concat(seq![c], rest.take(i - 1));
        assert(seq![c].drop_last() =~= Seq::<char>::empty());
        assert(utf16_len_of(seq![c]) == utf16_units(c)) by {
            reveal_with_fuel(utf16_len_of, 2);
        }
        assert(utf16_units(c) >= 1);
        assert(encode_utf8(chars.take(i)) == encode_scalar(c as u32) + encode_utf8(chars.take(i).drop_first()));
        assert(chars.take(i).drop_first() =~= rest.take(i - 1));
    }
}

/// The number of line breaks counts the first character and the rest.
pub proof fn lemma_line_breaks_first(c: Seq<char>)
    requires
        c.len() > 0,
    ensures
        line_breaks_of(c) == line_breaks_of(c.drop_first()) + if c[0] == '\n' {
            1nat
        } else {
            0nat
        },
{
    let h = seq![c[0]];
    assert(c =~= h + c.drop_first());
    lemma_utf16_len_concat(h, c.drop_first());
    assert(h.drop_last() =~= Seq::<char>::empty());
    assert(h.last() == c[0]);
    assert(line_breaks_of(Seq::<char>::empty()) == 0);
    assert(line_breaks_of(h) == line_breaks_of(h.drop_last()) + if h.last() == '\n' {
        1nat
    } else {
        0nat
    });
}

/// There are no more line breaks than characters.
pub proof fn lemma_line_breaks_le_len(c: Seq<char>)
    ensures
        line_breaks_of(c) <= c.len(),
    decreases c.len(),
{
    if c.len() > 0 {
        lemma_line_breaks_le_len(c.drop_last());
    }
}

/// The empty byte sequence is valid UTF-8 and decodes to no character.
pub proof fn lemma_text_of_empty()
    ensures
        valid_utf8(Seq::<u8>::empty()),
        text_of(Seq::<u8>::empty()) == Seq::<char>::empty(),
{
    encode_utf8_valid_utf8(Seq::<char>::empty());
    encode_utf8_decode_utf8(Seq::<char>::empty());
    assert(encode_utf8(Seq::<char>::empty()) =~= Seq::<u8>::empty());
}

/// UTF-8 width of a character.
fn char_utf8_width(c: char) -> (w: usize)
    ensures
        w == utf8_width(c),
        1 <= w <= 4,
{
    proof {
        char_is_scalar(c);
    }
    let u = c as u32;
    if u <= 0x7F {
        1
    } else if u <= 0x7FF {
        2
    } else if u <= 0xFFFF {
        3
    } else {
        4
    }
}

/// UTF-16 code units of a character.
fn char_utf16_units(c: char) -> (n: usize)
    ensures
        n == utf16_units(c),
{
    if (c as u32) >= 0x10000 {
        2
    } else {
        1
    }
}

/// `std::str::from_utf8`: the string that the bytes encode, when they are valid
/// UTF-8. The contract states the documented behaviour: `Some` exactly for valid
/// UTF-8, and then the string's bytes are the input bytes.
#[verifier::external_body]
pub(crate) fn str_from_utf8(bytes: &[u8]) -> (r: Option<&str>)
    ensures
        r is Some <==> valid_utf8(bytes@),
        r matches Some(s) ==> encode_utf8(s@) == bytes@,
{
    std::str::from_utf8(bytes).ok()
}

/// The string that valid UTF-8 bytes encode.
pub(crate) fn bytes_to_str(bytes: &[u8]) -> (s: &str)
    requires
        valid_utf8(bytes@),
    ensures
        s@ == text_of(bytes@),
        encode_utf8(s@) == bytes@,
{
    match str_from_utf8(bytes) {
        Some(s) => {
            proof {
                encode_utf8_decode_utf8(s@);
            }
            s
        },
        None => {
            proof {
                assert(false);
            }
            ""
        },
    }
}

/// Number of UTF-16 code units of `s`.
pub fn get_utf16_len(s: &str) -> (n: usize)
    ensures
        n == utf16_len_of(s@),
{
    let byte_len = s.as_bytes().len();
    if byte_len == 0 {
        proof {
            if s@.len() > 0 {
                assert(encode_utf8(s@) =~= encode_scalar(s@[0] as u32) + encode_utf8(
                    s@.drop_first(),
                ));
                char_is_scalar(s@[0]);
            }
        }
        return 0;
    }
    let ghost chars = s@;
    let mut n: usize = 0;
    proof {
        lemma_encode_utf8_len_bound(chars);
        assert(chars.take(0) =~= Seq::<char>::empty());
    }
    for c in it: s.chars()
        invariant
            chars == s@,
            it.seq() == chars,
            n == utf16_len_of(chars.take(it.index() as int)),
            n <= encode_utf8(chars.take(it.index() as int)).len(),
            encode_utf8(chars).len() == byte_len,
    {
        let ghost i = it.index() as int;
        proof {
            assert(chars.take(i + 1).drop_last() =~= chars.take(i));
            lemma_encode_utf8_take_step(chars, i);
            char_is_scalar(chars[i]);
            lemma_encode_utf8_prefix_bound(chars, i + 1);
        }
        n = n + char_utf16_units(c);
    }
    proof {
        assert(chars.take(chars.len() as int) =~= chars);
    }
    n
}

pub proof fn lemma_encode_utf8_prefix_bound(chars: Seq<char>, i: int)
    requires
        0 <= i <= chars.len(),
    ensures
        encode_utf8(chars.take(i)).len() <= encode_utf8(chars).len(),
    decreases chars.len() - i,
{
    if i < chars.len() {
        lemma_encode_utf8_prefix_bound(chars, i + 1);
        lemma_encode_utf8_take_step(chars, i);
    } else {
        assert(chars.take(i) =~= chars);
    }
}

/// UTF-16 length and number of line breaks of a piece of text.
pub struct Utf16LenAndLineBreaks {
    pub utf16: u32,
    pub line_breaks: u32,
}

/// UTF-16 length and number of line breaks of the text that `bytes` encode.
pub fn get_utf16_len_and_line_breaks(bytes: &[u8]) -> (r: Utf16LenAndLineBreaks)
    requires
        valid_utf8(bytes@),
        utf16_len_of(text_of(bytes@)) <= u32::MAX,
    ensures
        r.utf16 == utf16_len_of(text_of(bytes@)),
        r.line_breaks == line_breaks_of(text_of(bytes@)),
{
    if bytes.len() == 0 {
        proof {
            assert(text_of(bytes@) =~= Seq::<char>::empty());
        }
        return Utf16LenAndLineBreaks { line_breaks: 0, utf16: 0 };
    }
    let s = bytes_to_str(bytes);
    let ghost chars = s@;
    let mut utf16: u32 = 0;
    let mut line_breaks: u32 = 0;
    proof {
        assert(chars.take(0) =~= Seq::<char>::empty());
    }
    for c in it: s.chars()
        invariant
            chars == s@,
            it.seq() == chars,
            utf16_len_of(chars) <= u32::MAX,
            utf16 == utf16_len_of(chars.take(it.index() as int)),
            line_breaks == line_breaks_of(chars.take(it.index() as int)),
            line_breaks <= utf16,
    {
        let ghost i = it.index() as int;
        proof {
            assert(chars.take(i + 1).drop_last() =~= chars.take(i));
            lemma_utf16_prefix_bound(chars, i + 1);
        }
        if (c as u32) >= 0x10000 {
            utf16 = utf16 + 2;
        } else {
            utf16 = utf16 + 1;
        }
        if c == '\n' {
            line_breaks = line_breaks + 1;
        }
    }
    proof {
        assert(chars.take(chars.len() as int) =~= chars);
    }
    Utf16LenAndLineBreaks { utf16, line_breaks }
}

pub proof fn lemma_utf16_prefix_bound(chars: Seq<char>, i: int)
    requires
        0 <= i <= chars.len(),
    ensures
        utf16_len_of(chars.take(i)) <= utf16_len_of(chars),
    decreases chars.len() - i,
{
    if i < chars.len() {
        lemma_utf16_prefix_bound(chars, i + 1);
        assert(chars.take(i + 1).drop_last() =~= chars.take(i));
    } else {
        assert(chars.take(i) =~= chars);
    }
}

/// Converts a UTF-16 index into the text that `bytes` encode into a UTF-8
/// byte index.
pub fn utf16_to_utf8(bytes: &[u8], utf16_index: usize) -> (r: usize)
    requires
        valid_utf8(bytes@),
    ensures
        r == utf8_offset_of_utf16(text_of(bytes@), utf16_index as int),
{
    if utf16_index == 0 {
        return 0;
    }
    let s = bytes_to_str(bytes);
    let ghost chars = s@;
    let blen = bytes.len();
    let mut left: usize = utf16_index;
    let mut visited: usize = 0;
    proof {
        assert(chars.skip(0) =~= chars);
        lemma_offset_bound(chars, utf16_index as int);
    }
    for c in it: s.chars()
        invariant
            chars == s@,
            it.seq() == chars,
            encode_utf8(chars) == bytes@,
            visited + utf8_offset_of_utf16(chars.skip(it.index() as int), left as int)
                == utf8_offset_of_utf16(chars, utf16_index as int),
            utf8_offset_of_utf16(chars, utf16_index as int) <= bytes@.len(),
            blen == bytes@.len(),
    {
        let ghost i = it.index() as int;
        proof {
            assert(chars.skip(i)[0] == chars[i]);
            assert(chars.skip(i).drop_first() =~= chars.skip(i + 1));
        }
        if left > 0 {
            let units = char_utf16_units(c);
            proof {
                let rest = chars.skip(i);
                assert(utf8_offset_of_utf16(rest, left as int) == utf8_width(chars[i])
                    + utf8_offset_of_utf16(chars.skip(i + 1), left - utf16_units(chars[i])));
                if left < units {
                    assert(utf8_offset_of_utf16(chars.skip(i + 1), left - units) == 0);
                    assert(utf8_offset_of_utf16(chars.skip(i + 1), 0) == 0);
                }
            }
            visited = visited + char_utf8_width(c);
            left = if left >= units {
                left - units
            } else {
                0
            };
        } else {
            proof {
                assert(utf8_offset_of_utf16(chars.skip(i + 1), 0) == 0);
            }
        }
    }
    proof {
        assert(chars.skip(chars.len() as int) =~= Seq::<char>::empty());
    }
    visited
}

/// The UTF-8 byte index of the start of line `n` in the text that `bytes`
/// encode, or `None` when the text has fewer than `n` line breaks.
pub fn line_start_to_utf8(bytes: &[u8], n: usize) -> (r: Option<usize>)
    requires
        valid_utf8(bytes@),
    ensures
        r matches Some(p) ==> line_start_of(text_of(bytes@), n as nat) == Some(p as nat),
        r is None ==> line_start_of(text_of(bytes@), n as nat) is None,
{
    if n == 0 {
        return Some(0);
    }
    let s = bytes_to_str(bytes);
    let ghost chars = s@;
    let blen = bytes.len();
    let mut visited_bytes: usize = 0;
    let mut iter_line_breaks: usize = 0;
    let mut found: Option<usize> = None;
    proof {
        assert(chars.skip(0) =~= chars);
        lemma_line_start_bound(chars, n as nat);
    }
    for c in it: s.chars()
        invariant
            chars == s@,
            it.seq() == chars,
            encode_utf8(chars) == bytes@,
            0 < n,
            found is None ==> iter_line_breaks < n,
            found is None ==> visited_bytes == encode_utf8(chars.take(it.index() as int)).len(),
            found is None ==> (match line_start_of(chars.skip(it.index() as int), (n - iter_line_breaks) as nat) {
                Some(p) => line_start_of(chars, n as nat) == Some((p + visited_bytes) as nat),
                None => line_start_of(chars, n as nat) is None,
            }),
            found matches Some(p) ==> line_start_of(chars, n as nat) == Some(p as nat),
            blen == bytes@.len(),
    {
        let ghost i = it.index() as int;
        proof {
            assert(chars.skip(i)[0] == chars[i]);
            assert(chars.skip(i).drop_first() =~= chars.skip(i + 1));
            lemma_encode_utf8_take_step(chars, i);
            lemma_encode_utf8_prefix_bound(chars, i + 1);
        }
        if found.is_none() {
            if c == '\n' {
                iter_line_breaks = iter_line_breaks + 1;
                if iter_line_breaks == n {
                    found = Some(visited_bytes + 1);
                }
            }
            visited_bytes = visited_bytes + char_utf8_width(c);
        }
    }
    proof {
        if found is None {
            assert(chars.skip(chars.len() as int) =~= Seq::<char>::empty());
        }
    }
    found
}

} // verus!
