use crdt_richtext::delta::{chop, compose, DeltaItem};
use crdt_richtext::rich_text::RichText;
use crdt_richtext::rich_tree::IndexType;
use crdt_richtext::{AnchorType, Behavior, Style};

fn bold() -> Style {
    Style {
        start_type: AnchorType::Before,
        end_type: AnchorType::Before,
        behavior: Behavior::Merge,
        type_: "bold".to_string(),
        value: serde_json::Value::Bool(true),
    }
}

fn attrs(pairs: &[(&str, i64)]) -> Vec<(String, serde_json::Value)> {
    pairs
        .iter()
        .map(|(k, v)| (k.to_string(), serde_json::Value::from(*v)))
        .collect()
}

#[test]
fn insert_counts_units() {
    let d = DeltaItem::insert("a😀".to_string(), IndexType::Utf8);
    assert_eq!(d.length(), 5);
    let d = DeltaItem::insert("a😀".to_string(), IndexType::Utf16);
    assert_eq!(d.length(), 3);
    assert!(d.is_insert());
    assert!(!d.should_remove());
}

#[test]
fn retain_and_delete_items() {
    let r = DeltaItem::retain(3);
    assert!(r.is_retain());
    assert_eq!(r.length(), 3);
    assert!(r.attributions().is_none());
    let d = DeltaItem::delete(0);
    assert!(d.is_delete());
    assert!(d.should_remove());
    assert!(DeltaItem::retain(0).should_remove());
}

#[test]
fn take_splits_utf8_insert() {
    let mut d = DeltaItem::insert_with_attributes("héllo".to_string(), IndexType::Utf8, attrs(&[("b", 1)]));
    let head = d.take(3);
    match (&head, &d) {
        (
            DeltaItem::Insert { insert: h, len: hl, attributes: ha, .. },
            DeltaItem::Insert { insert: r, len: rl, .. },
        ) => {
            assert_eq!(h, "hé");
            assert_eq!(*hl, Some(3));
            assert_eq!(r, "llo");
            assert_eq!(*rl, Some(3));
            assert_eq!(ha.as_ref().unwrap().len(), 1);
        }
        _ => panic!("both parts stay insertions"),
    }
}

#[test]
fn take_splits_utf16_insert() {
    let mut d = DeltaItem::insert("😀ab".to_string(), IndexType::Utf16);
    assert_eq!(d.length(), 4);
    let head = d.take(2);
    match (&head, &d) {
        (DeltaItem::Insert { insert: h, len: hl, .. }, DeltaItem::Insert { insert: r, len: rl, .. }) => {
            assert_eq!(h, "😀");
            assert_eq!(*hl, Some(2));
            assert_eq!(r, "ab");
            assert_eq!(*rl, Some(2));
        }
        _ => panic!("both parts stay insertions"),
    }
}

#[test]
fn take_splits_retain_and_delete() {
    let mut r = DeltaItem::retain_with_attributes(10, attrs(&[("x", 2)]));
    let head = r.take(4);
    assert_eq!(head.length(), 4);
    assert_eq!(r.length(), 6);
    assert_eq!(head.attributions().unwrap().len(), 1);
    let mut d = DeltaItem::delete(5);
    let head = d.take(5);
    assert_eq!(head.length(), 5);
    assert!(d.should_remove());
}

#[test]
fn compose_meta_overwrites_and_adds() {
    let mut a = DeltaItem::retain_with_attributes(2, attrs(&[("bold", 1), ("size", 3)]));
    let b = DeltaItem::retain_with_attributes(2, attrs(&[("size", 5), ("link", 7)]));
    a.compose_meta(&b);
    let got = a.attributions().unwrap();
    assert_eq!(got.len(), 3);
    assert_eq!(got[0], ("bold".to_string(), serde_json::Value::from(1)));
    assert_eq!(got[1], ("size".to_string(), serde_json::Value::from(5)));
    assert_eq!(got[2], ("link".to_string(), serde_json::Value::from(7)));
}

#[test]
fn compose_meta_gives_attributes_to_plain_items() {
    let mut a = DeltaItem::retain(2);
    a.compose_meta(&DeltaItem::retain(2));
    assert_eq!(a.attributions().map(|x| x.len()), Some(0));
    let mut d = DeltaItem::delete(1);
    d.compose_meta(&DeltaItem::retain_with_attributes(1, attrs(&[("b", 1)])));
    assert!(d.attributions().is_none());
}

#[test]
fn chop_drops_trailing_plain_retain() {
    let v = chop(vec![DeltaItem::insert("a".to_string(), IndexType::Utf8), DeltaItem::retain(3)]);
    assert_eq!(v.len(), 1);
    let v = chop(vec![DeltaItem::retain_with_attributes(3, attrs(&[("b", 1)]))]);
    assert_eq!(v.len(), 1);
    let v = chop(vec![DeltaItem::delete(1)]);
    assert_eq!(v.len(), 1);
    assert!(chop(Vec::new()).is_empty());
}

#[test]
fn insert_event_reports_position_and_styles() {
    let mut text = RichText::new(1);
    text.insert(0, "hello");
    text.annotate(0, 5, bold());
    text.insert(2, "XY");
    let e = text.insert_event(2, "XY");
    assert!(e.is_local);
    assert_eq!(e.ops.len(), 2);
    assert_eq!(e.ops[0].length(), 2);
    match &e.ops[1] {
        DeltaItem::Insert { insert, attributes, len, .. } => {
            assert_eq!(insert, "XY");
            assert_eq!(*len, Some(2));
            assert!(attributes.as_ref().unwrap().iter().any(|(k, _)| k == "bold"));
        }
        _ => panic!("the second item inserts"),
    }
}

#[test]
fn insert_event_at_start_has_no_retain() {
    let mut text = RichText::new(1);
    text.insert(0, "abc");
    let e = text.insert_event(0, "abc");
    assert_eq!(e.ops.len(), 1);
    assert!(e.ops[0].is_insert());
}

#[test]
fn delete_event_counts_in_event_unit() {
    let mut text = RichText::new(1);
    text.insert(0, "😀ab");
    text.set_event_index_type(IndexType::Utf16);
    let e = text.delete_event(4, 5).unwrap();
    assert_eq!(e.index_type, IndexType::Utf16);
    assert_eq!(e.ops.len(), 2);
    assert_eq!(e.ops[0].length(), 2);
    assert!(e.ops[1].is_delete());
    assert_eq!(e.ops[1].length(), 1);
    assert!(text.delete_event(4, 4).is_none());
}

#[test]
fn annotate_event_sets_the_style() {
    let mut text = RichText::new(1);
    text.insert(0, "hello");
    let e = text.annotate_event(1, 3, &bold()).unwrap();
    assert_eq!(e.ops.len(), 2);
    assert_eq!(e.ops[1].length(), 2);
    let a = e.ops[1].attributions().unwrap();
    assert_eq!(a.len(), 1);
    assert_eq!(a[0].0, "bold");
    let e = text.annotate_event(0, 5, &bold()).unwrap();
    assert_eq!(e.ops.len(), 1);
    assert!(text.annotate_event(2, 2, &bold()).is_none());
}

fn bold_attr() -> Option<Vec<(String, serde_json::Value)>> {
    Some(vec![("bold".to_string(), serde_json::Value::Bool(true))])
}

#[test]
fn apply_delta_edits_text_and_styles() {
    let mut text = RichText::new(1);
    text.insert(0, "hello world");
    let delta = vec![
        DeltaItem::Retain { retain: 6, attributes: None },
        DeltaItem::Delete { delete: 5 },
        DeltaItem::Insert {
            insert: "there".to_string(),
            attributes: bold_attr(),
            len: None,
            index_type: None,
        },
    ];
    text.apply_delta(delta, IndexType::Utf8);
    assert_eq!(text.to_string(), "hello there");
    let spans = text.get_spans();
    assert_eq!(spans.len(), 2);
    assert_eq!(spans[0].insert, "hello ");
    assert_eq!(spans[1].insert, "there");
    assert!(spans[1].attributes.iter().any(|p| p.0 == "bold"));
}

#[test]
fn apply_delta_pads_retain_with_attributes() {
    let mut text = RichText::new(1);
    text.insert(0, "ab");
    let delta = vec![DeltaItem::Retain { retain: 4, attributes: bold_attr() }];
    text.apply_delta(delta, IndexType::Utf16);
    assert_eq!(text.to_string(), "ab\n\n");
    let spans = text.get_spans();
    assert_eq!(spans.len(), 1);
    assert!(spans[0].attributes.iter().any(|p| p.0 == "bold"));
}

#[test]
fn apply_delta_removes_style_with_null() {
    let mut text = RichText::new(1);
    text.insert(0, "abc");
    text.annotate(0, 3, bold());
    let delta = vec![DeltaItem::Retain {
        retain: 3,
        attributes: Some(vec![("bold".to_string(), serde_json::Value::Null)]),
    }];
    text.apply_delta(delta, IndexType::Utf8);
    assert_eq!(text.to_string(), "abc");
    let spans = text.get_spans();
    assert_eq!(spans.len(), 1);
    assert!(spans[0].attributes.is_empty());
}

fn inserted(d: &DeltaItem) -> Option<String> {
    match d {
        DeltaItem::Insert { insert, .. } => Some(insert.clone()),
        _ => None,
    }
}

#[test]
fn compose_delete_inside_insert() {
    let a = vec![DeltaItem::insert("abc".to_string(), IndexType::Utf16)];
    let b = vec![DeltaItem::retain(1), DeltaItem::delete(1)];
    let r = compose(a, b);
    assert_eq!(r.len(), 2);
    assert_eq!(inserted(&r[0]), Some("a".to_string()));
    assert_eq!(inserted(&r[1]), Some("c".to_string()));
}

#[test]
fn compose_with_empty_first() {
    let r = compose(vec![], vec![DeltaItem::insert("x".to_string(), IndexType::Utf16)]);
    assert_eq!(r.len(), 1);
    assert_eq!(inserted(&r[0]), Some("x".to_string()));
}

#[test]
fn compose_delete_after_retain() {
    let r = compose(vec![DeltaItem::retain(2)], vec![DeltaItem::delete(1)]);
    assert_eq!(r.len(), 2);
    assert!(r[0].is_delete());
    assert_eq!(r[0].length(), 1);
    assert!(r[1].is_retain());
    assert_eq!(r[1].length(), 1);
}
