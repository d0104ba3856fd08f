use append_only_bytes::AppendOnlyBytes;
use crdt_richtext::utf16::{get_utf16_len, get_utf16_len_and_line_breaks, line_start_to_utf8, utf16_to_utf8};

#[test]
fn line_breaks() {
    let mut bytes = AppendOnlyBytes::new();
    bytes.push_str("abc\ndragon\nzz");
    assert_eq!(bytes.len(), 13);
    assert_eq!(line_start_to_utf8(&bytes.slice(..), 0).unwrap(), 0);
    assert_eq!(line_start_to_utf8(&bytes.slice(..), 1).unwrap(), 4);
    assert_eq!(line_start_to_utf8(&bytes.slice(..), 2).unwrap(), 11);
    assert!(line_start_to_utf8(&bytes.slice(..), 3).is_none());
    assert_eq!(line_start_to_utf8(&bytes.slice(0..0), 0).unwrap(), 0);
    assert_eq!(line_start_to_utf8(&bytes.slice(0..0), 1), None);
}

#[test]
fn utf16_index_round_trip() {
    let s = "a\u{1F600}b\u{e9}c";
    let bytes = s.as_bytes();
    for (offset, _) in s.char_indices() {
        let units = get_utf16_len(&s[..offset]);
        assert_eq!(utf16_to_utf8(bytes, units), offset);
    }
    assert_eq!(utf16_to_utf8(bytes, get_utf16_len(s)), bytes.len());
}
