use crdt_richtext::ann::Span;
use crdt_richtext::rich_text::RichText;
use crdt_richtext::rich_tree::IndexType;
use crdt_richtext::{AnchorType, Behavior, Style};

fn style(start: AnchorType, end: AnchorType, behavior: Behavior, type_: &str) -> Style {
    Style {
        start_type: start,
        end_type: end,
        behavior,
        type_: type_.to_string(),
        value: serde_json::Value::Bool(true),
    }
}

fn bold() -> Style {
    style(AnchorType::Before, AnchorType::Before, Behavior::Merge, "bold")
}

fn unbold() -> Style {
    style(AnchorType::Before, AnchorType::Before, Behavior::Delete, "bold")
}

fn link() -> Style {
    style(AnchorType::Before, AnchorType::After, Behavior::Merge, "link")
}

fn unlink() -> Style {
    style(AnchorType::After, AnchorType::Before, Behavior::Delete, "link")
}

fn expanding_style() -> Style {
    style(AnchorType::After, AnchorType::Before, Behavior::Merge, "expand")
}

fn has(span: &Span, key: &str) -> bool {
    span.attributes.iter().any(|(k, _)| k == key)
}

fn same_spans(a: &[Span], b: &[Span]) -> bool {
    if a.len() != b.len() {
        return false;
    }
    a.iter().zip(b.iter()).all(|(x, y)| {
        let mut kx: Vec<&String> = x.attributes.iter().map(|p| &p.0).collect();
        let mut ky: Vec<&String> = y.attributes.iter().map(|p| &p.0).collect();
        kx.sort();
        ky.sort();
        x.insert == y.insert && kx == ky
    })
}

#[test]
fn delete() {
    let mut text = RichText::new(1);
    text.insert(0, "123");
    text.delete(0, 1);
    assert_eq!(text.len(), 2);
    assert_eq!(text.to_string().as_str(), "23");
}

#[test]
fn delete_middle() {
    let mut text = RichText::new(1);
    text.insert(0, "123");
    text.delete(1, 2);
    assert_eq!(text.len(), 2);
    assert_eq!(text.to_string().as_str(), "13");
}

#[test]
fn delete_end() {
    let mut text = RichText::new(1);
    text.insert(0, "123");
    let len = text.len();
    text.delete(2, len);
    assert_eq!(text.len(), 2);
    assert_eq!(text.to_string().as_str(), "12");
}

#[test]
fn delete_all() {
    let mut text = RichText::new(1);
    assert!(text.is_empty());
    text.insert(0, "123");
    assert!(!text.is_empty());
    let len = text.len();
    text.delete(0, len);
    assert_eq!(text.len(), 0);
    assert!(text.is_empty());
    assert_eq!(text.to_string().as_str(), "");
}

#[test]
fn delete_across_leaf() {
    let mut text = RichText::new(1);
    let mut s = String::new();
    for i in 0..1000 {
        let t = i.to_string();
        text.insert(0, t.as_str());
        s.insert_str(0, &t);
    }

    text.delete(50, 300);
    s.drain(50..300);
    assert_eq!(text.to_string(), s);
    text.delete(50, 300);
    s.drain(50..300);
    assert_eq!(text.to_string(), s);
    text.delete(0, 300);
    s.drain(0..300);
    assert_eq!(text.to_string(), s);
    let len = text.len();
    text.delete(0, len);
    assert_eq!(text.to_string().as_str(), "");
    assert!(text.is_empty());
    assert!(text.check_no_mergeable_neighbor());
}

#[test]
fn test_insert_len() {
    let mut text = RichText::new(1);
    text.insert(0, "123");
    assert!(text.len() == 3);
    assert!(text.utf16_len() == 3);
    text.insert(0, "的");
    assert!(text.len() == 6);
    assert!(text.utf16_len() == 4);
    assert_eq!(text.to_string().as_str(), "的123");
    text.insert(5, "k");
    assert_eq!(text.to_string().as_str(), "的12k3");
}

#[test]
fn test_utf_16() {
    let mut text = RichText::new(1);
    text.insert_utf16(0, "你");
    assert_eq!(text.utf16_len(), 1);
    text.insert_utf16(1, "好");
    assert_eq!(text.utf16_len(), 2);
    assert_eq!(&text.to_string(), "你好");

    text.annotate_utf16(0, 1, bold());
    let spans = text.get_spans();
    assert_eq!(spans.len(), 2);
    assert_eq!(spans[0].insert, "你");
    text.insert_utf16(1, "k");
    let spans = text.get_spans();
    assert_eq!(spans.len(), 2);
    assert_eq!(spans[0].insert, "你k");
    assert_eq!(spans[0].attributes[0].0, "bold");

    text.delete_utf16(0, 2);
    assert_eq!(&text.to_string(), "好");
}

#[test]
fn test_insert_should_merge() {
    let mut text = RichText::new(1);
    for i in 0..10000 {
        text.insert(i, "1")
    }
    assert!(text.elements().len() < 16);
    assert_eq!(text.utf16_len(), 10000);
    assert_eq!(text.len(), 10000);
}

#[test]
fn test_merge_insert() {
    let mut text = RichText::new(1);
    text.insert(0, "123");
    let mut b = RichText::new(2);
    b.merge(&text);
    assert_eq!(b.to_string().as_str(), "123");
    text.insert(1, "k");
    b.merge(&text);
    assert_eq!(b.to_string().as_str(), "1k23");
    text.insert(1, "y");
    b.merge(&text);
    assert_eq!(b.to_string().as_str(), "1yk23");

    text.insert(5, "z");
    b.merge(&text);
    assert_eq!(b.to_string().as_str(), "1yk23z");

    for i in 0..100 {
        text.insert(i, i.to_string().as_str());
        b.merge(&text);
        assert_eq!(b.to_string(), text.to_string());
    }

    for i in (0..100).step_by(3) {
        text.insert(i, i.to_string().as_str());
        b.merge(&text);
        assert_eq!(b.to_string(), text.to_string());
    }
}

#[test]
fn apply_delete() {
    let mut a = RichText::new(1);
    let mut b = RichText::new(2);
    a.insert(0, "123");
    a.delete(0, 1);
    b.merge(&a);
    assert_eq!(a.to_string().as_str(), "23");
    assert_eq!(b.to_string().as_str(), "23");
    a.insert(0, "xyz");
    b.merge(&a);
    assert_eq!(b.to_string().as_str(), "xyz23");
    a.delete(2, 4);
    b.merge(&a);
    assert_eq!(b.to_string().as_str(), "xy3");
    let len = a.len();
    a.delete(0, len);
    b.merge(&a);
    assert!(b.is_empty());
    assert_eq!(b.to_string().as_str(), "");
}

#[test]
fn apply_basic() {
    let mut a = RichText::new(1);
    let mut b = RichText::new(2);
    a.insert(0, "6");
    b.merge(&a);
    b.insert(0, "3");
    a.insert(0, "2");
    a.merge(&b);
    b.merge(&a);
    assert_eq!(a.to_string(), b.to_string());
}

#[test]
fn apply_annotation() {
    let mut a = RichText::new(1);
    let mut b = RichText::new(2);
    a.insert(0, "aaa");
    b.insert(0, "bbb");
    let la = a.len();
    a.annotate(0, la, bold());
    let lb = b.len();
    b.annotate(0, lb, link());
    a.merge(&b);
    b.merge(&a);
    assert!(same_spans(&a.get_spans(), &b.get_spans()));
}

#[test]
fn annotate_bold() {
    let mut text = RichText::new(1);
    text.insert(0, "123456789");
    text.annotate(0, 3, bold());
    let ans = text.get_spans();
    assert_eq!(ans.len(), 2);
    assert_eq!(ans[0].len(), 3);
    assert_eq!(ans[1].len(), 6);
    assert_eq!(ans[0].as_str(), "123");
}

#[test]
fn annotate_link() {
    let mut text = RichText::new(1);
    text.insert(0, "123456789");
    text.annotate(0, 3, link());
    let ans = text.get_spans();
    assert_eq!(ans.len(), 2);
    assert_eq!(ans[0].len(), 3);
    assert_eq!(ans[1].len(), 6);
    assert_eq!(ans[0].as_str(), "123");
    assert!(has(&ans[0], "link"));
}

#[test]
fn annotate_link_single_char() {
    let mut text = RichText::new(1);
    text.insert(0, "123456789");
    text.annotate(3, 4, link());
    let ans = text.get_spans();
    assert_eq!(ans.len(), 3);
    assert_eq!(ans[0].len(), 3);
    assert_eq!(ans[1].len(), 1);
    assert_eq!(ans[2].len(), 5);
    assert_eq!(ans[1].as_str(), "4");
    assert!(has(&ans[1], "link"));
}

#[test]
fn annotate_whole_doc() {
    let mut text = RichText::new(1);
    text.insert(0, "123456789");
    let len = text.len();
    text.annotate(0, len, expanding_style());
    let ans = text.get_spans();
    assert_eq!(ans.len(), 1);
    assert_eq!(ans[0].len(), 9);
    assert_eq!(ans[0].as_str(), "123456789");
    let len = text.len();
    text.delete(0, len);
    let ans = text.get_spans();
    assert_eq!(ans.len(), 0);
    text.insert(0, "123456789");
    let ans = text.get_spans();
    assert_eq!(ans.len(), 1);
    assert_eq!(ans[0].len(), 9);
    assert_eq!(ans[0].as_str(), "123456789");
    assert!(has(&ans[0], "expand"));
}

#[test]
fn annotate_half_doc_start() {
    let mut text = RichText::new(1);
    text.insert(0, "123456789");
    text.annotate(0, 5, expanding_style());
    let ans = text.get_spans();
    assert_eq!(ans.len(), 2);
    assert_eq!(ans[0].len(), 5);
    assert_eq!(ans[1].len(), 4);
    assert!(has(&ans[0], "expand"));

    text.insert(5, "k");
    let ans = text.get_spans();
    assert_eq!(ans[0].len(), 6);
    assert!(has(&ans[0], "expand"));

    text.delete(3, 7);
    let ans = text.get_spans();
    assert_eq!(ans[0].len(), 3);
    assert!(has(&ans[0], "expand"));

    text.insert(3, "k");
    let ans = text.get_spans();
    assert_eq!(ans[0].len(), 4);

    text.delete(0, 5);
    text.insert(0, "12");
    let ans = text.get_spans();
    assert_eq!(ans[0].len(), 2);
    assert!(has(&ans[0], "expand"));
}

#[test]
fn annotate_half_doc_end() {
    let mut text = RichText::new(1);
    text.insert(0, "123456789");
    let len = text.len();
    text.annotate(5, len, expanding_style());
    {
        let ans = text.get_spans();
        assert_eq!(ans.len(), 2);
        assert_eq!(ans[0].len(), 5);
        assert_eq!(ans[0].attributes.len(), 0);
        assert_eq!(ans[1].len(), 4);
        assert_eq!(ans[1].attributes.len(), 1);
    }
    text.delete(4, 6);
    {
        let ans = text.get_spans();
        assert_eq!(ans.len(), 2);
        assert_eq!(ans[0].len(), 4);
        assert_eq!(ans[0].attributes.len(), 0);
        assert_eq!(ans[1].len(), 3);
        assert_eq!(ans[1].attributes.len(), 1);
    }
    text.insert(7, "k");
    {
        let ans = text.get_spans();
        assert_eq!(ans.len(), 2);
        assert_eq!(ans[0].len(), 4);
        assert_eq!(ans[0].attributes.len(), 0);
        assert_eq!(ans[1].as_str(), "789k");
        assert_eq!(ans[1].attributes.len(), 1);
    }
}

#[test]
fn test_simple_unbold() {
    let mut text = RichText::new(1);
    text.insert(0, "123");
    text.annotate(0, 1, bold());
    let ans = text.get_spans();
    assert_eq!(ans.len(), 2);
    assert_eq!(ans[0].attributes.len(), 1);

    text.annotate(0, 1, unbold());
    let ans = text.get_spans();
    assert_eq!(ans.len(), 1);
    assert_eq!(ans[0].attributes.len(), 0);
    assert_eq!(&ans[0].insert, "123");
}

#[test]
fn test_unbold() {
    let mut text = RichText::new(1);
    text.insert(0, "123456789");
    text.annotate(0, 5, bold());
    text.annotate(3, 5, unbold());
    {
        let ans = text.get_spans();
        assert_eq!(ans.len(), 2);
        assert_eq!(ans[0].len(), 3);
        assert_eq!(ans[0].attributes.len(), 1);
        assert_eq!(ans[1].len(), 6);
        assert_eq!(ans[1].attributes.len(), 0);
    }
    text.insert(3, "k");
    {
        let ans = text.get_spans();
        assert_eq!(ans.len(), 2);
        assert_eq!(ans[0].as_str(), "123k");
        assert_eq!(ans[0].attributes.len(), 1);
        assert_eq!(ans[1].len(), 6);
        assert_eq!(ans[1].attributes.len(), 0);
    }
}

#[test]
fn test_unlink() {
    let mut text = RichText::new(1);
    text.insert(0, "123456789");
    text.annotate(0, 5, link());
    text.annotate(3, 5, unlink());
    {
        let ans = text.get_spans();
        assert_eq!(ans.len(), 2);
        assert_eq!(ans[0].len(), 3);
        assert_eq!(ans[0].attributes.len(), 1);
        assert_eq!(ans[1].len(), 6);
        assert_eq!(ans[1].attributes.len(), 0);
    }
    text.insert(3, "k");
    {
        let ans = text.get_spans();
        assert_eq!(ans.len(), 2);
        assert_eq!(ans[0].as_str(), "123");
        assert_eq!(ans[0].attributes.len(), 1);
        assert_eq!(ans[1].len(), 7);
        assert_eq!(ans[1].attributes.len(), 0);
    }
}

#[test]
fn test_expand() {
    let mut text = RichText::new(1);
    text.insert(0, "123456789");
    text.annotate(0, 5, link());
    text.annotate(0, 5, bold());
    {
        let ans = text.get_spans();
        assert_eq!(ans.len(), 2);
        assert_eq!(ans[0].len(), 5);
        assert_eq!(ans[1].len(), 4);
        assert_eq!(ans[0].attributes.len(), 2);
    }
    text.insert(5, "k");
    {
        let ans = text.get_spans();
        assert_eq!(ans.len(), 3);
        assert_eq!(ans[0].len(), 5);
        assert_eq!(ans[1].len(), 1);
        assert_eq!(ans[2].len(), 4);
        assert!(has(&ans[0], "link"));
        assert!(has(&ans[0], "bold"));
        assert!(has(&ans[1], "bold"));
        assert!(ans[2].attributes.is_empty());
    }
}

#[test]
fn test_shrink() {
    let mut text = RichText::new(1);
    text.insert(0, "123456789");
    text.annotate(0, 5, link());
    text.annotate(0, 5, bold());
    text.delete(3, 7);
    let ans = text.get_spans();
    assert_eq!(ans.len(), 2);
    assert_eq!(ans[0].len(), 3);
    assert_eq!(ans[1].len(), 2);
    assert!(has(&ans[0], "link"));
    assert!(has(&ans[0], "bold"));
    assert!(ans[1].attributes.is_empty());
}

#[test]
fn insert_before_tombstone_bold() {
    let mut text = RichText::new(1);
    text.insert(0, "123456789");
    text.annotate(0, 5, bold());
    text.delete(4, 6);
    text.insert(4, "k");
    let spans = text.get_spans();
    assert_eq!(spans.len(), 2);
    assert_eq!(spans[0].insert, "1234k");
    assert!(has(&spans[0], "bold"));
}

#[test]
fn insert_after_tombstone_link() {
    let mut text = RichText::new(1);
    text.insert(0, "123456789");
    text.annotate(0, 5, link());
    text.delete(4, 6);
    text.insert(4, "k");
    let spans = text.get_spans();
    assert_eq!(spans.len(), 2);
    assert_eq!(spans[0].insert, "1234");
    assert!(has(&spans[0], "link"));
    assert!(spans[1].attributes.is_empty());
}

#[test]
fn insert_before_bold_anchor_but_after_link_anchor_in_tombstones() {
    let mut text = RichText::new(1);
    text.insert(0, "123456789");
    text.annotate(0, 5, link());
    text.annotate(0, 5, bold());
    text.delete(4, 6);
    text.insert(4, "k");
    assert_eq!(text.to_string().as_str(), "1234k789");
    let spans = text.get_spans();
    assert_eq!(spans.len(), 3);
    assert_eq!(spans[0].insert, "1234");
    assert!(has(&spans[0], "link"));
    assert!(has(&spans[0], "bold"));
    assert_eq!(spans[1].insert, "k");
    assert!(!has(&spans[1], "link"));
    assert!(has(&spans[1], "bold"));
    assert_eq!(spans[2].insert, "789");
    assert!(spans[2].attributes.is_empty());
}

#[test]
fn apply_remote_annotation() {
    let mut text = RichText::new(1);
    text.insert(0, "123456789");
    text.annotate(0, 5, link());
    let mut b = RichText::new(2);
    b.merge(&text);
    assert!(same_spans(&b.get_spans(), &text.get_spans()));
}

#[test]
fn test_backward_interleaving() {
    let mut a = RichText::new(1);
    a.insert(0, " ");
    a.insert(0, "i");
    a.insert(0, "H");
    let mut b = RichText::new(2);
    b.insert(0, "o");
    a.merge(&b);
    b.insert(0, "l");
    a.merge(&b);
    b.insert(0, "l");
    a.merge(&b);
    b.insert(0, "e");
    a.merge(&b);
    b.insert(0, "H");
    a.merge(&b);
    assert_eq!(&a.to_string(), "Hi Hello");
}

#[test]
fn test_forward_interleaving() {
    let mut a = RichText::new(1);
    a.insert(0, "H");
    a.insert(1, "i");
    a.insert(2, " ");
    let mut b = RichText::new(2);
    b.insert(0, "H");
    b.insert(1, "e");
    b.insert(2, "l");
    b.insert(3, "l");
    b.insert(4, "o");
    a.merge(&b);
    assert_eq!(&a.to_string(), "Hi Hello");
}

#[test]
fn merging_again_changes_nothing() {
    let mut a = RichText::new(1);
    let mut b = RichText::new(2);
    a.insert(0, "abc");
    b.insert(0, "xyz");
    a.merge(&b);
    let once = a.to_string();
    a.merge(&b);
    assert_eq!(a.to_string(), once);
    assert_eq!(a.version().get(2), b.version().get(2));
}

#[test]
fn merge_takes_the_longer_history() {
    let mut a = RichText::new(1);
    let mut b = RichText::new(2);
    a.insert(0, "abc");
    b.insert(0, "xy");
    b.merge(&a);
    a.merge(&b);
    assert_eq!(a.version().get(1), 3);
    assert_eq!(a.version().get(2), 2);
    assert_eq!(b.version().get(1), 3);
    assert_eq!(a.to_string(), b.to_string());
}

#[test]
fn delete_should_be_merged() {
    let mut text = RichText::new(1);
    text.insert(0, "12345");
    text.delete(3, 4);
    text.delete(1, 2);
    let len = text.len();
    text.delete(0, len);
    assert_eq!(text.elements().len(), 1);
}

#[test]
fn delete_should_be_merged_1() {
    let mut text = RichText::new(1);
    text.insert(0, "12345");
    text.delete(4, 5);
    text.delete(3, 4);
    text.delete(0, 2);
    assert_eq!(text.elements().len(), 3);
}

#[test]
fn delete_op_merge() {
    let mut text = RichText::new(1);
    text.insert(0, "12345");
    text.delete(0, 1);
    text.delete(0, 1);
    text.delete(0, 1);
    assert_eq!(text.store().op_len(), 2);
}

#[test]
fn test_find_right() {
    let mut text = RichText::new(1);
    text.insert(0, "0");
    text.insert(0, "1");
    let span = &text.elements()[0];
    assert_eq!(span.right.unwrap().counter, 0);
    text.insert(0, "2");
    let span = &text.elements()[0];
    assert_eq!(span.right.unwrap().counter, 1);
    // before: 210
    text.insert(2, "3");
    // after: 2130
    let span = &text.elements()[2];
    assert_eq!(span.right.unwrap().counter, 0);
    let mut other = RichText::new(2);
    other.merge(&text);
    // before: 2130
    other.insert(0, "4");
    // before: 42130
    let span = &other.elements()[0];
    assert_eq!(span.right.unwrap().counter, 2);
}

#[test]
fn test_merge_split_right() {
    let mut text = RichText::new(1);
    text.insert(0, "0");
    text.insert(1, "1");
    let span = &text.elements()[0];
    assert_eq!(span.atom_len(), 2);
    assert!(span.right.is_none());
    text.insert(1, "2");
    let span = &text.elements()[0];
    assert_eq!(span.atom_len(), 1);
    assert!(span.right.is_none());
    let span = &text.elements()[1];
    assert_eq!(span.atom_len(), 1);
    assert_eq!(span.right.unwrap().counter, 1);
}

#[test]
fn slice_len_of_dead_element() {
    let mut text = RichText::new(1);
    text.insert(0, "a\u{1F600}b");
    let e = &text.elements()[0];
    assert_eq!(e.slice_len_with(IndexType::Utf16, 0, 5), 3);
    assert_eq!(e.slice_len_with(IndexType::Utf8, 0, 5), 5);
    text.delete(0, 6);
    let e = &text.elements()[0];
    assert_eq!(e.slice_len_with(IndexType::Utf8, 0, 6), 6);
    assert_eq!(e.slice_len_with(IndexType::Utf16, 0, 6), 4);
    assert_eq!(e.visible_slice_len_with(IndexType::Utf8, 0, 6), 0);
}

#[test]
fn merge_applies_new_annotation() {
    let mut a = RichText::new(1);
    a.insert(0, "abc");
    a.annotate(0, 2, bold_style());
    let mut b = RichText::new(2);
    let n0 = b.annotation_count();
    b.merge(&a);
    let n1 = b.annotation_count();
    assert!(n1 > n0);
    b.merge(&a);
    assert_eq!(b.annotation_count(), n1);
    assert_eq!(b.get_spans().len(), 2);
}

fn bold_style() -> Style {
    Style {
        start_type: AnchorType::Before,
        end_type: AnchorType::Before,
        behavior: Behavior::Merge,
        type_: "bold".to_string(),
        value: serde_json::Value::Bool(true),
    }
}
