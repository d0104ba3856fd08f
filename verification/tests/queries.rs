use crdt_richtext::error::Error;
use crdt_richtext::rich_text::{sort_by_lamport, RichText};
use crdt_richtext::rich_tree::IndexType;
use crdt_richtext::vv::VersionVector;
use crdt_richtext::{AnchorType, Behavior, Style};

#[test]
fn style_from_expand_options() {
    let v = serde_json::Value::Bool(true);
    let s = Style::new_from_expand(None, "bold".to_string(), v.clone(), Behavior::Merge).unwrap();
    assert_eq!((s.start_type, s.end_type), (AnchorType::Before, AnchorType::Before));
    let s = Style::new_from_expand(Some("none"), "link".to_string(), v.clone(), Behavior::Merge).unwrap();
    assert_eq!((s.start_type, s.end_type), (AnchorType::Before, AnchorType::After));
    let s = Style::new_from_expand(Some("start"), "x".to_string(), v.clone(), Behavior::Merge).unwrap();
    assert_eq!((s.start_type, s.end_type), (AnchorType::After, AnchorType::After));
    let s = Style::new_from_expand(Some("both"), "x".to_string(), v.clone(), Behavior::Delete).unwrap();
    assert_eq!((s.start_type, s.end_type), (AnchorType::After, AnchorType::Before));
    assert_eq!(s.behavior, Behavior::Delete);
    let e = Style::new_from_expand(Some("sideways"), "x".to_string(), v, Behavior::Merge);
    assert_eq!(e.err(), Some(Error::InvalidExpand));
}

#[test]
fn style_constructors() {
    let v = serde_json::Value::Bool(true);
    let b = Style::new_bold_like("bold".to_string(), v.clone());
    assert_eq!((b.start_type, b.end_type, b.behavior), (AnchorType::Before, AnchorType::Before, Behavior::Merge));
    let c = Style::new_comment_like("comment".to_string(), v.clone());
    assert_eq!(c.behavior, Behavior::Inclusive);
    let l = Style::new_link_like("link".to_string(), v);
    assert_eq!((l.start_type, l.end_type), (AnchorType::Before, AnchorType::After));
    let u = Style::new_erase_link_like("link".to_string());
    assert_eq!(u.behavior, Behavior::Delete);
}

#[test]
fn lines_and_line_spans() {
    let mut text = RichText::new(1);
    text.insert(0, "ab\ncd\n\nef");
    assert_eq!(text.lines(), 4);
    let line = |n: usize| -> String { text.get_line(n).iter().map(|s| s.insert.clone()).collect() };
    assert_eq!(line(0), "ab\n");
    assert_eq!(line(1), "cd\n");
    assert_eq!(line(2), "\n");
    assert_eq!(line(3), "ef");
    assert!(text.get_line(4).is_empty());
}

#[test]
fn slices_by_unit() {
    let mut text = RichText::new(1);
    text.insert(0, "a😀b");
    assert_eq!(text.len_with(IndexType::Utf8), 6);
    assert_eq!(text.len_with(IndexType::Utf16), 4);
    assert_eq!(text.slice_str(1, 5, IndexType::Utf8), "😀");
    assert_eq!(text.slice_str(1, 3, IndexType::Utf16), "😀");
    let spans = text.slice(3, 4, IndexType::Utf16);
    let s: String = spans.iter().map(|x| x.insert.clone()).collect();
    assert_eq!(s, "b");
    assert_eq!(text.convert_index(5, IndexType::Utf8, IndexType::Utf16), 3);
    assert_eq!(text.convert_index(3, IndexType::Utf16, IndexType::Utf8), 5);
}

#[test]
fn version_counts_atoms() {
    let mut text = RichText::new(7);
    text.insert(0, "abc");
    text.delete(0, 1);
    let v = text.version();
    assert_eq!(v.get(7), 4);
    assert_eq!(v.get(8), 0);
    let ops = text.export_ops(&VersionVector::new());
    let sorted = sort_by_lamport(ops[&7].clone());
    assert!(sorted.windows(2).all(|w| w[0].lamport <= w[1].lamport));
    assert_eq!(text.store().op_len(), 2);
}
