use crdt_richtext::test_utils::{
    apply_action, apply_action_utf16, fuzzing_match_str, preprocess_action, preprocess_action_utf16,
    Action, Actor, AnnotationType,
};
use crdt_richtext::{AnchorType, Behavior};

#[test]
fn styles_of_annotation_types() {
    let b = AnnotationType::Bold.style();
    assert_eq!(b.type_, "bold");
    assert_eq!(b.behavior, Behavior::Merge);
    assert_eq!((b.start_type, b.end_type), (AnchorType::Before, AnchorType::Before));
    let l = AnnotationType::Link.style();
    assert_eq!(l.value, serde_json::Value::Bool(true));
    assert_eq!((l.start_type, l.end_type), (AnchorType::Before, AnchorType::After));
    let c = AnnotationType::Comment.style();
    assert_eq!(c.behavior, Behavior::Inclusive);
    assert_eq!(c.value, serde_json::Value::String("This is a comment".to_string()));
    let u = AnnotationType::UnLink.style();
    assert_eq!(u.behavior, Behavior::Delete);
    assert_eq!((u.start_type, u.end_type), (AnchorType::After, AnchorType::Before));
    assert_eq!(AnnotationType::UnBold.style().behavior, Behavior::Delete);
}

#[test]
fn preprocess_fits_positions_and_lengths() {
    let mut actors = vec![Actor::new(0), Actor::new(1)];
    actors[1].insert(0, "hello");
    let mut a = Action::Insert { actor: 3, pos: 9, content: 7 };
    preprocess_action(&actors, &mut a);
    assert_eq!(a, Action::Insert { actor: 1, pos: 3, content: 7 });
    let mut d = Action::Delete { actor: 1, pos: 2, len: 200 };
    preprocess_action(&actors, &mut d);
    assert_eq!(d, Action::Delete { actor: 1, pos: 2, len: 1 });
    let mut s = Action::Sync(4, 6);
    preprocess_action(&actors, &mut s);
    assert_eq!(s, Action::Sync(0, 1));
    let mut e = Action::Delete { actor: 0, pos: 5, len: 3 };
    preprocess_action(&actors, &mut e);
    assert_eq!(e, Action::Delete { actor: 0, pos: 0, len: 0 });
}

#[test]
fn preprocess_utf16_counts_units() {
    let mut actors = vec![Actor::new(0)];
    actors[0].insert(0, "😀a");
    let mut a = Action::Annotate { actor: 0, pos: 7, len: 4, annotation: AnnotationType::Bold };
    preprocess_action_utf16(&actors, &mut a);
    assert_eq!(a, Action::Annotate { actor: 0, pos: 3, len: 0, annotation: AnnotationType::Bold });
    let mut b = Action::Annotate { actor: 0, pos: 7, len: 4, annotation: AnnotationType::Bold };
    preprocess_action(&actors, &mut b);
    assert_eq!(b, Action::Annotate { actor: 0, pos: 1, len: 0, annotation: AnnotationType::Bold });
}

#[test]
fn replaying_actions_edits_and_syncs() {
    let mut actors = vec![Actor::new(0), Actor::new(1)];
    apply_action(&mut actors, Action::Insert { actor: 0, pos: 0, content: 123 });
    apply_action(&mut actors, Action::Insert { actor: 1, pos: 0, content: 45 });
    apply_action(&mut actors, Action::Delete { actor: 0, pos: 1, len: 1 });
    assert_eq!(actors[0].text.to_string(), "13");
    apply_action(&mut actors, Action::Annotate { actor: 0, pos: 0, len: 2, annotation: AnnotationType::Bold });
    assert_eq!(actors[0].text.to_string(), "13");
    apply_action(&mut actors, Action::Sync(1, 0));
    apply_action(&mut actors, Action::Sync(0, 1));
    assert_eq!(actors[0].text.to_string(), actors[1].text.to_string());
    assert_eq!(actors[0].len(), 4);
}

#[test]
fn replaying_utf16_actions() {
    let mut actors = vec![Actor::new(0), Actor::new(1)];
    actors[0].insert(0, "😀");
    apply_action_utf16(&mut actors, Action::Insert { actor: 0, pos: 2, content: 9 });
    assert_eq!(actors[0].text.to_string(), "😀9");
    apply_action_utf16(&mut actors, Action::Delete { actor: 0, pos: 0, len: 2 });
    assert_eq!(actors[0].text.to_string(), "9");
    assert_eq!(actors[0].len_utf16(), 1);
}

#[test]
fn match_str_script_agrees() {
    let script = vec![
        Action::Insert { actor: 0, pos: 0, content: 4 },
        Action::Insert { actor: 0, pos: 5, content: 1 },
        Action::Insert { actor: 0, pos: 1, content: 7 },
        Action::Annotate { actor: 0, pos: 0, len: 1, annotation: AnnotationType::Link },
        Action::Delete { actor: 0, pos: 1, len: 1 },
        Action::Sync(0, 1),
        Action::Insert { actor: 0, pos: 3, content: 6 },
        Action::Delete { actor: 0, pos: 9, len: 200 },
    ];
    assert!(fuzzing_match_str(script));
}

#[test]
fn match_str_long_random_script() {
    let mut seed: u64 = 7;
    let mut script = Vec::new();
    for _ in 0..300 {
        seed = seed.wrapping_mul(6364136223846793005).wrapping_add(1442695040888963407);
        let x = (seed >> 33) as u32;
        let pos = (x & 0xff) as u8;
        let v = ((x >> 8) & 0xffff) as u16;
        if x % 3 == 0 {
            script.push(Action::Delete { actor: 0, pos, len: (v % 5) as u8 });
        } else {
            script.push(Action::Insert { actor: 0, pos, content: v });
        }
    }
    assert!(fuzzing_match_str(script));
}
