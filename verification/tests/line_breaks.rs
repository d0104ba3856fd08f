use crdt_richtext::fuzz_line_breaks::{fuzzing_line_break, preprocess, Action};

#[test]
fn fuzz_line_breaks_test() {
    assert!(fuzzing_line_break(vec![]));
    assert!(fuzzing_line_break(vec![Action::Insert {
        index: 0,
        content: 1,
        has_line_break: false,
    }]));
    assert!(fuzzing_line_break(vec![Action::Delete {
        index: 10,
        len: 100,
    }]));
    assert!(fuzzing_line_break(vec![
        Action::Insert {
            index: 0,
            content: 123,
            has_line_break: true,
        },
        Action::Delete {
            index: 10,
            len: 100,
        },
    ]));
}

#[test]
fn fuzz_line_breaks_fuzz_0() {
    assert!(fuzzing_line_break(vec![
        Action::Insert {
            index: 0,
            content: 256,
            has_line_break: false,
        },
        Action::Delete {
            index: 5911,
            len: 23,
        },
        Action::Insert {
            index: 5911,
            content: 5911,
            has_line_break: true,
        },
    ]))
}

#[test]
fn fuzz_line_breaks_fuzz_1() {
    assert!(fuzzing_line_break(vec![
        Action::Insert {
            index: 0,
            content: 20303,
            has_line_break: true,
        },
        Action::Insert {
            index: 3,
            content: 20303,
            has_line_break: true,
        },
        Action::Insert {
            index: 10,
            content: 20303,
            has_line_break: true,
        },
        Action::Insert {
            index: 11,
            content: 20303,
            has_line_break: true,
        },
        Action::Insert {
            index: 3,
            content: 20303,
            has_line_break: true,
        },
        Action::Insert {
            index: 29,
            content: 20303,
            has_line_break: true,
        },
        Action::Insert {
            index: 27,
            content: 20303,
            has_line_break: true,
        },
        Action::Insert {
            index: 7,
            content: 20303,
            has_line_break: true,
        },
        Action::Insert {
            index: 17,
            content: 20303,
            has_line_break: true,
        },
        Action::Insert {
            index: 8,
            content: 20303,
            has_line_break: true,
        },
        Action::Insert {
            index: 51,
            content: 20303,
            has_line_break: true,
        },
        Action::Insert {
            index: 2,
            content: 20303,
            has_line_break: true,
        },
        Action::Insert {
            index: 1,
            content: 30720,
            has_line_break: false,
        },
        Action::Insert {
            index: 12,
            content: 0,
            has_line_break: false,
        },
        Action::Insert {
            index: 76,
            content: 323,
            has_line_break: true,
        },
        Action::Delete { index: 22, len: 23 },
        Action::Insert {
            index: 31,
            content: 30840,
            has_line_break: false,
        },
        Action::Insert {
            index: 59,
            content: 17219,
            has_line_break: true,
        },
    ]))
}

#[test]
fn fuzz_line_breaks_fuzz_2() {
    assert!(fuzzing_line_break(vec![
        Action::Insert {
            index: 74,
            content: 10752,
            has_line_break: false,
        },
        Action::Delete {
            index: 2056,
            len: 8,
        },
        Action::Insert {
            index: 5911,
            content: 5911,
            has_line_break: true,
        },
        Action::Insert {
            index: 2056,
            content: 2056,
            has_line_break: false,
        },
        Action::Insert {
            index: 2602,
            content: 17194,
            has_line_break: false,
        },
        Action::Insert {
            index: 5911,
            content: 16407,
            has_line_break: true,
        },
        Action::Insert {
            index: 2056,
            content: 2056,
            has_line_break: false,
        },
        Action::Insert {
            index: 2570,
            content: 10794,
            has_line_break: false,
        },
        Action::Insert {
            index: 10794,
            content: 10762,
            has_line_break: true,
        },
        Action::Insert {
            index: 2583,
            content: 0,
            has_line_break: false,
        },
        Action::Insert {
            index: 10752,
            content: 0,
            has_line_break: false,
        },
        Action::Insert {
            index: 23594,
            content: 23644,
            has_line_break: false,
        },
        Action::Insert {
            index: 11007,
            content: 23644,
            has_line_break: false,
        },
        Action::Insert {
            index: 65372,
            content: 65535,
            has_line_break: true,
        },
        Action::Insert {
            index: 23644,
            content: 10844,
            has_line_break: true,
        },
        Action::Insert {
            index: 2071,
            content: 520,
            has_line_break: false,
        },
        Action::Insert {
            index: 0,
            content: 65288,
            has_line_break: true,
        },
        Action::Insert {
            index: 23644,
            content: 23644,
            has_line_break: false,
        },
        Action::Insert {
            index: 5911,
            content: 2056,
            has_line_break: false,
        },
        Action::Delete {
            index: 248,
            len: 10,
        },
    ]))
}

#[test]
fn fuzz_line_breaks_fuzz_3() {
    assert!(fuzzing_line_break(vec![
        Action::Insert {
            index: 74,
            content: 10752,
            has_line_break: false,
        },
        Action::Delete {
            index: 2056,
            len: 8,
        },
        Action::Insert {
            index: 5911,
            content: 5911,
            has_line_break: true,
        },
        Action::Insert {
            index: 255,
            content: 0,
            has_line_break: false,
        },
        Action::Insert {
            index: 2602,
            content: 17194,
            has_line_break: false,
        },
        Action::Insert {
            index: 5911,
            content: 16407,
            has_line_break: true,
        },
        Action::Insert {
            index: 2056,
            content: 2056,
            has_line_break: false,
        },
        Action::Insert {
            index: 2570,
            content: 10794,
            has_line_break: false,
        },
        Action::Insert {
            index: 10794,
            content: 10762,
            has_line_break: true,
        },
        Action::Insert {
            index: 2583,
            content: 0,
            has_line_break: false,
        },
        Action::Insert {
            index: 10752,
            content: 17152,
            has_line_break: true,
        },
        Action::Insert {
            index: 67,
            content: 0,
            has_line_break: false,
        },
        Action::Insert {
            index: 0,
            content: 0,
            has_line_break: false,
        },
        Action::Insert {
            index: 23644,
            content: 23644,
            has_line_break: false,
        },
        Action::Insert {
            index: 23644,
            content: 23644,
            has_line_break: false,
        },
        Action::Delete {
            index: 65535,
            len: 255,
        },
        Action::Insert {
            index: 23644,
            content: 5930,
            has_line_break: true,
        },
        Action::Insert {
            index: 2056,
            content: 2,
            has_line_break: false,
        },
        Action::Insert {
            index: 2048,
            content: 65535,
            has_line_break: true,
        },
        Action::Insert {
            index: 23644,
            content: 10844,
            has_line_break: true,
        },
        Action::Insert {
            index: 2071,
            content: 2056,
            has_line_break: false,
        },
        Action::Delete {
            index: 2560,
            len: 42,
        },
    ]))
}

#[test]
fn preprocess_is_idempotent() {
    let mut actions = vec![
        Action::Insert { index: 7, content: 123, has_line_break: true },
        Action::Delete { index: 9, len: 200 },
        Action::Insert { index: 300, content: 5, has_line_break: false },
        Action::Delete { index: 1, len: 3 },
    ];
    preprocess(&mut actions);
    let once = format!("{:?}", actions);
    preprocess(&mut actions);
    assert_eq!(format!("{:?}", actions), once);
    assert!(fuzzing_line_break(actions));
}
