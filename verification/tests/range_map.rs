use crdt_richtext::range_map::{DumbRangeMap, Span};
use crdt_richtext::{Anchor, AnchorRange, AnchorType, Annotation, Behavior, OpID};

fn id(k: u64) -> OpID {
    OpID { client: k, counter: 0 }
}

fn a(n: u64) -> Annotation {
    Annotation {
        id: id(n),
        range_lamport: (0, id(n)),
        range: AnchorRange {
            start: Anchor { id: Some(id(n)), type_: AnchorType::Before },
            end: Anchor { id: Some(id(n)), type_: AnchorType::Before },
        },
        behavior: Behavior::Merge,
        type_: String::new(),
        value: serde_json::Value::Null,
    }
}

fn from_spans(spans: &[Span]) -> Vec<(Vec<u64>, usize)> {
    spans
        .iter()
        .map(|s| {
            let mut ids: Vec<u64> = s.annotations.iter().map(|x| x.id.client).collect();
            ids.sort();
            (ids, s.len)
        })
        .collect()
}

#[test]
fn test_insert_delete() {
    let mut range_map = DumbRangeMap::init();
    range_map.insert_directly(0, 10);
    range_map.delete(0, 10);
    assert_eq!(range_map.len(), 0);
    assert!(range_map.span_list().len() == 1);
    assert!(range_map.span_list()[0].len == 0);
}

#[test]
fn test_annotating() {
    let mut range_map = DumbRangeMap::init();
    range_map.insert_directly(0, 10);
    range_map.annotate(0, 10, a(0));
    assert_eq!(range_map.span_list().len(), 1);
    assert_eq!(range_map.span_list()[0].annotations[0].id, id(0));
    // 0..2..4..10
    //  1  2  1
    range_map.annotate(2, 2, a(1));
    let arr = range_map.span_list();
    assert_eq!(arr.len(), 3);
    assert_eq!(arr[0].annotations.len(), 1);
    assert_eq!(arr[1].annotations.len(), 2);
    assert_eq!(arr[2].annotations.len(), 1);
    // 0..1..2..4..8..10
    //  1  2  3  2  1
    range_map.annotate(1, 7, a(2));
    let arr = range_map.span_list();
    assert_eq!(arr.len(), 5);
    assert_eq!(arr[0].annotations.len(), 1);
    assert_eq!(arr[1].annotations.len(), 2);
    assert_eq!(arr[2].annotations.len(), 3);
    assert_eq!(arr[3].annotations.len(), 2);
    assert_eq!(arr[4].annotations.len(), 1);
}

#[test]
fn test_annotate_inner() {
    let mut range_map = DumbRangeMap::init();
    range_map.insert_directly(0, 10);
    range_map.annotate(0, 2, a(0));
    assert_eq!(range_map.span_list().len(), 2);
    assert_eq!(range_map.span_list()[0].annotations[0].id, id(0));
    range_map.annotate(6, 4, a(1));
    let arr = range_map.span_list();
    assert_eq!(arr.len(), 3);
    assert_eq!(arr[0].annotations[0].id, id(0));
    assert_eq!(arr[1].annotations.len(), 0);
    assert_eq!(arr[2].annotations[0].id, id(1));
}

#[test]
fn dumb_range_map_expand() {
    let mut range_map = DumbRangeMap::init();
    range_map.insert_directly(0, 10);
    range_map.annotate(2, 2, a(0));
    range_map.adjust_annotation(id(0), None, Some((2, None)));
    let spans = range_map.get_annotations(0, 10);
    assert_eq!(from_spans(&spans), vec![(vec![], 2), (vec![0], 4), (vec![], 4)]);
    // 0..2..6..7..10
    //  0  2  1  0
    range_map.annotate(2, 5, a(1));
    let spans = range_map.get_annotations(0, 10);
    assert_eq!(
        from_spans(&spans),
        vec![(vec![], 2), (vec![0, 1], 4), (vec![1], 1), (vec![], 3)]
    );

    range_map.adjust_annotation(id(0), None, Some((2, None)));
    let spans = range_map.get_annotations(0, 10);
    assert_eq!(
        from_spans(&spans),
        vec![(vec![], 2), (vec![0, 1], 5), (vec![0], 1), (vec![], 2)]
    );
}

#[test]
fn shrink_keeps_annotation_at_edge() {
    let mut range_map = DumbRangeMap::init();
    range_map.insert_directly(0, 10);
    range_map.annotate(2, 4, a(0));
    range_map.adjust_annotation(id(0), Some((4, None)), None);
    let spans = range_map.get_annotations(0, 10);
    assert_eq!(from_spans(&spans), vec![(vec![], 6), (vec![0], 0), (vec![], 4)]);
    assert!(range_map.get_annotation_pos(id(0)).is_some());
    range_map.delete_annotation(id(0));
    assert!(range_map.get_annotation_pos(id(0)).is_none());
}

#[test]
fn insert_between_spans_takes_shared_annotations() {
    let mut range_map = DumbRangeMap::init();
    range_map.insert_directly(0, 10);
    range_map.annotate(0, 10, a(0));
    range_map.annotate(0, 5, a(1));
    range_map.insert(5, 3, |ann: &Annotation| {
        if ann.id == id(1) {
            crdt_richtext::range_map::AnnPosRelativeToInsert::IncludeInsert
        } else {
            crdt_richtext::range_map::AnnPosRelativeToInsert::After
        }
    });
    assert_eq!(range_map.len(), 13);
    let spans = range_map.get_annotations(0, 13);
    assert_eq!(from_spans(&spans), vec![(vec![0, 1], 8), (vec![0], 5)]);
    let pos = range_map.get_annotation_pos(id(1)).unwrap();
    assert_eq!(pos.1, (0, 8));
}
