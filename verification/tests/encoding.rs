use crdt_richtext::decoding::from_doc_encoding;
use crdt_richtext::encoding::{to_doc_encoding, OpContentType, COMPRESS_THRESHOLD};
use crdt_richtext::error::Error;
use crdt_richtext::rich_text::RichText;
use crdt_richtext::vv::VersionVector;
use crdt_richtext::{AnchorType, Behavior, Style};

fn style(type_: &str, value: serde_json::Value) -> Style {
    Style {
        start_type: AnchorType::Before,
        end_type: AnchorType::After,
        behavior: Behavior::Merge,
        type_: type_.to_string(),
        value,
    }
}

fn sync_through_layout(from: &RichText, to: &mut RichText) {
    let ops = from.export_ops(&to.version());
    let layout = to_doc_encoding(ops).expect("small exports fit the layout");
    let decoded = from_doc_encoding(layout).expect("a fresh layout decodes");
    to.import_ops(decoded);
}

#[test]
fn export_import_roundtrip() {
    let mut a = RichText::new(1);
    a.insert(0, "hello world");
    a.annotate(0, 5, style("bold", serde_json::Value::Bool(true)));
    a.delete(2, 3);
    a.insert(0, "> ");
    let mut b = RichText::new(2);
    sync_through_layout(&a, &mut b);
    assert_eq!(b.to_string(), "> helo world");
    assert_eq!(b.to_string(), a.to_string());
    let spans = b.get_spans();
    assert!(spans.iter().any(|s| s.attributes.iter().any(|(k, _)| k == "bold")));
}

#[test]
fn roundtrip_keeps_annotation_values() {
    let mut a = RichText::new(1);
    a.insert(0, "see the docs");
    let url = serde_json::Value::String("https://example.com/docs".to_string());
    a.annotate(8, 12, style("link", url.clone()));
    let mut b = RichText::new(2);
    sync_through_layout(&a, &mut b);
    let spans = b.get_spans();
    let linked: Vec<_> = spans
        .iter()
        .filter(|s| s.attributes.iter().any(|(k, v)| k == "link" && *v == url))
        .collect();
    assert_eq!(linked.len(), 1);
    assert_eq!(linked[0].insert, "docs");
}

#[test]
fn roundtrip_of_concurrent_peers() {
    let mut a = RichText::new(1);
    let mut b = RichText::new(2);
    a.insert(0, "abc");
    b.insert(0, "xyz");
    sync_through_layout(&a, &mut b);
    sync_through_layout(&b, &mut a);
    assert_eq!(a.to_string(), b.to_string());
    assert_eq!(a.len(), 6);
}

#[test]
fn long_text_is_compressed() {
    let mut a = RichText::new(1);
    let text = "0123456789".repeat(200);
    a.insert(0, &text);
    let layout = to_doc_encoding(a.export_ops(&VersionVector::default())).unwrap();
    assert!(layout.compressed_str);
    assert_ne!(layout.str, text.as_bytes().to_vec());
    let mut b = RichText::new(2);
    b.import_ops(from_doc_encoding(layout).unwrap());
    assert_eq!(b.to_string(), text);
}

#[test]
fn short_text_is_stored_as_is() {
    let mut a = RichText::new(1);
    a.insert(0, "short");
    let layout = to_doc_encoding(a.export_ops(&VersionVector::default())).unwrap();
    assert!(!layout.compressed_str);
    assert!(layout.str.len() <= COMPRESS_THRESHOLD);
    assert_eq!(layout.str, b"short".to_vec());
    assert_eq!(layout.clients, vec![1]);
    assert_eq!(layout.op_len, vec![1]);
    assert_eq!(layout.start_counters, vec![0]);
    assert_eq!(layout.inserts.len(), 1);
    assert_eq!(layout.inserts[0].len, 5);
    assert_eq!(layout.inserts[0].left_client, u32::MAX);
}

#[test]
fn annotation_value_is_stored_as_json_text() {
    let mut a = RichText::new(1);
    a.insert(0, "x");
    a.annotate(0, 1, style("comment", serde_json::Value::String("note".to_string())));
    let layout = to_doc_encoding(a.export_ops(&VersionVector::default())).unwrap();
    assert_eq!(layout.annotations.len(), 1);
    let ann = layout.annotations[0];
    assert_eq!(layout.ann_types_and_values[ann.type_ as usize], "comment");
    assert_eq!(layout.ann_types_and_values[ann.value as usize], "\"note\"");
}

#[test]
fn empty_export_has_empty_layout() {
    let a = RichText::new(1);
    let layout = to_doc_encoding(a.export_ops(&VersionVector::default())).unwrap();
    assert!(layout.ops.is_empty());
    assert!(layout.clients.is_empty());
    let decoded = from_doc_encoding(layout).unwrap();
    assert!(decoded.is_empty());
}

#[test]
fn decode_rejects_unknown_kind() {
    let mut a = RichText::new(1);
    a.insert(0, "abc");
    let mut layout = to_doc_encoding(a.export_ops(&VersionVector::default())).unwrap();
    layout.ops[0].type_ = 7;
    assert_eq!(from_doc_encoding(layout).err(), Some(Error::DecodeError));
}

#[test]
fn decode_rejects_missing_text() {
    let mut a = RichText::new(1);
    a.insert(0, "abc");
    let mut layout = to_doc_encoding(a.export_ops(&VersionVector::default())).unwrap();
    layout.str.pop();
    assert_eq!(from_doc_encoding(layout).err(), Some(Error::DecodeError));
}

#[test]
fn decode_rejects_a_peer_twice() {
    let mut a = RichText::new(1);
    a.insert(0, "abc");
    let mut layout = to_doc_encoding(a.export_ops(&VersionVector::default())).unwrap();
    layout.clients.push(1);
    layout.op_len.push(0);
    layout.start_counters.push(3);
    assert_eq!(from_doc_encoding(layout).err(), Some(Error::DecodeError));
}

#[test]
fn decode_rejects_broken_gzip() {
    let mut a = RichText::new(1);
    a.insert(0, "abc");
    let mut layout = to_doc_encoding(a.export_ops(&VersionVector::default())).unwrap();
    layout.compressed_str = true;
    assert_eq!(from_doc_encoding(layout).err(), Some(Error::DecodeError));
}

#[test]
fn decode_rejects_unparsable_value() {
    let mut a = RichText::new(1);
    a.insert(0, "abc");
    a.annotate(0, 1, style("bold", serde_json::Value::Bool(true)));
    let mut layout = to_doc_encoding(a.export_ops(&VersionVector::default())).unwrap();
    let v = layout.annotations[0].value as usize;
    layout.ann_types_and_values[v] = "{not json".to_string();
    assert_eq!(from_doc_encoding(layout).err(), Some(Error::DecodeError));
}

#[test]
fn empty_peer_list_decodes_to_empty_list() {
    let a = RichText::new(1);
    let mut layout = to_doc_encoding(a.export_ops(&VersionVector::default())).unwrap();
    layout.clients.push(9);
    layout.op_len.push(0);
    layout.start_counters.push(0);
    let decoded = from_doc_encoding(layout).unwrap();
    assert_eq!(decoded.len(), 1);
    assert!(decoded[&9].is_empty());
}

#[test]
fn op_content_type_bytes() {
    assert_eq!(OpContentType::Insert.to_u8(), 0);
    assert_eq!(OpContentType::Delete.to_u8(), 1);
    assert_eq!(OpContentType::Ann.to_u8(), 2);
    assert_eq!(OpContentType::from_u8(1), Some(OpContentType::Delete));
    assert_eq!(OpContentType::from_u8(3), None);
}
