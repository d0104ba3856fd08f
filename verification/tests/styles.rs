use crdt_richtext::ann::Span;
use crdt_richtext::rich_text::RichText;
use crdt_richtext::Style;

fn style(name: &str) -> Style {
    Style::new_bold_like(name.to_string(), serde_json::Value::Bool(true))
}

fn names(span: &Span) -> Vec<String> {
    let mut v: Vec<String> = span.attributes.iter().map(|a| a.0.clone()).collect();
    v.sort();
    v
}

fn layout(text: &RichText) -> Vec<(String, Vec<String>)> {
    text.get_spans().iter().map(|s| (s.insert.clone(), names(s))).collect()
}

fn owned(v: &[(&str, &[&str])]) -> Vec<(String, Vec<String>)> {
    v.iter()
        .map(|(t, a)| (t.to_string(), a.iter().map(|x| x.to_string()).collect()))
        .collect()
}

#[test]
fn annotation_covers_exactly_its_range() {
    let mut text = RichText::new(1);
    text.insert(0, "hello world");
    text.annotate(2, 7, style("bold"));
    assert_eq!(
        layout(&text),
        owned(&[("he", &[]), ("llo w", &["bold"]), ("orld", &[])])
    );
    assert!(text.get_style_at_position(1).is_empty());
    assert_eq!(text.get_style_at_position(2).len(), 1);
    assert_eq!(text.get_style_at_position(6).len(), 1);
    assert!(text.get_style_at_position(7).is_empty());
}

#[test]
fn annotation_keeps_other_styles() {
    let mut text = RichText::new(1);
    text.insert(0, "0123456789");
    text.annotate(0, 4, style("bold"));
    text.annotate(2, 6, style("italic"));
    assert_eq!(
        layout(&text),
        owned(&[
            ("01", &["bold"]),
            ("23", &["bold", "italic"]),
            ("45", &["italic"]),
            ("6789", &[]),
        ])
    );
}

#[test]
fn insertion_keeps_existing_styles() {
    let mut text = RichText::new(1);
    text.insert(0, "123456789");
    text.annotate(0, 5, style("bold"));
    text.insert(7, "xy");
    text.insert(0, "ab");
    assert_eq!(text.to_string(), "ab1234567xy89");
    assert_eq!(
        layout(&text),
        owned(&[("ab", &[]), ("12345", &["bold"]), ("67xy89", &[])])
    );
}

#[test]
fn deletion_keeps_remaining_styles() {
    let mut text = RichText::new(1);
    text.insert(0, "0123456789");
    text.annotate(2, 6, style("bold"));
    text.delete(4, 8);
    assert_eq!(text.to_string(), "012389");
    assert_eq!(
        layout(&text),
        owned(&[("01", &[]), ("23", &["bold"]), ("89", &[])])
    );
}
