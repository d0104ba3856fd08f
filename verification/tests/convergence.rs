use crdt_richtext::ann::Span;
use crdt_richtext::test_utils::{
    apply_action, fuzzing_match_str, preprocess_action, Action, Actor, AnnotationType,
};

fn span_key(s: &Span) -> (String, Vec<(String, String)>) {
    let mut attrs: Vec<(String, String)> =
        s.attributes.iter().map(|p| (p.0.clone(), p.1.to_string())).collect();
    attrs.sort();
    (s.insert.clone(), attrs)
}

fn merge_into(actors: &mut Vec<Actor>, a: usize, b: usize) {
    apply_action(actors, Action::Sync(a as u8, b as u8));
}

/// Replays a script on `actor_num` documents (each action fitted first), then
/// syncs every pair both ways and checks that they agree.
fn fuzzing(actor_num: usize, actions: Vec<Action>) {
    let mut actors: Vec<Actor> = (0..actor_num).map(Actor::new).collect();
    for mut action in actions {
        preprocess_action(&actors, &mut action);
        apply_action(&mut actors, action);
    }
    for i in 0..actors.len() {
        for j in (i + 1)..actors.len() {
            merge_into(&mut actors, i, j);
            merge_into(&mut actors, j, i);
            assert_eq!(actors[i].text.to_string(), actors[j].text.to_string());
            let a: Vec<_> = actors[i].text.get_spans().iter().map(span_key).collect();
            let b: Vec<_> = actors[j].text.get_spans().iter().map(span_key).collect();
            assert_eq!(a, b);
        }
    }
}

struct Lcg(u64);

impl Lcg {
    fn next(&mut self) -> u64 {
        self.0 = self.0.wrapping_mul(6364136223846793005).wrapping_add(1442695040888963407);
        self.0 >> 33
    }
}

fn random_actions(seed: u64, n: usize) -> Vec<Action> {
    let mut r = Lcg(seed);
    let anns = [
        AnnotationType::Link,
        AnnotationType::Bold,
        AnnotationType::Comment,
        AnnotationType::UnBold,
        AnnotationType::UnLink,
    ];
    (0..n)
        .map(|_| match r.next() % 4 {
            0 => Action::Insert {
                actor: r.next() as u8,
                pos: r.next() as u8,
                content: r.next() as u16,
            },
            1 => Action::Delete { actor: r.next() as u8, pos: r.next() as u8, len: r.next() as u8 },
            2 => Action::Annotate {
                actor: r.next() as u8,
                pos: r.next() as u8,
                len: r.next() as u8,
                annotation: anns[(r.next() % 5) as usize],
            },
            _ => Action::Sync(r.next() as u8, r.next() as u8),
        })
        .collect()
}

#[test]
fn random_scripts_converge_two_peers() {
    for seed in 0..40 {
        fuzzing(2, random_actions(seed, 150));
    }
}

#[test]
fn random_scripts_converge_five_peers() {
    for seed in 100..130 {
        fuzzing(5, random_actions(seed, 200));
    }
}

#[test]
fn fuzz_basic() {
    fuzzing(
        2,
        vec![
            Action::Insert {
                actor: 72,
                pos: 72,
                content: 24648,
            },
            Action::Annotate {
                actor: 254,
                pos: 122,
                len: 133,
                annotation: AnnotationType::Link,
            },
        ],
    )
}

#[test]
fn test_fuzz_0() {
    fuzzing(
        2,
        vec![
            Action::Delete {
                actor: 72,
                pos: 72,
                len: 72,
            },
            Action::Insert {
                actor: 0,
                pos: 129,
                content: 0,
            },
            Action::Insert {
                actor: 0,
                pos: 0,
                content: 18432,
            },
            Action::Insert {
                actor: 72,
                pos: 72,
                content: 18504,
            },
            Action::Delete {
                actor: 72,
                pos: 72,
                len: 72,
            },
        ],
    )
}

#[test]
fn test_fuzz_1() {
    fuzzing(
        2,
        vec![
            Action::Insert {
                actor: 0,
                pos: 0,
                content: 0,
            },
            Action::Insert {
                actor: 72,
                pos: 72,
                content: 18504,
            },
            Action::Delete {
                actor: 72,
                pos: 72,
                len: 72,
            },
        ],
    );
}

#[test]
fn test_fuzz_2() {
    fuzzing(
        2,
        vec![
            Action::Insert {
                actor: 0,
                pos: 0,
                content: 0,
            },
            Action::Insert {
                actor: 0,
                pos: 0,
                content: 0,
            },
            Action::Insert {
                actor: 0,
                pos: 0,
                content: 0,
            },
            Action::Insert {
                actor: 0,
                pos: 0,
                content: 18504,
            },
            Action::Delete {
                actor: 0,
                pos: 0,
                len: 2,
            },
            Action::Delete {
                actor: 0,
                pos: 2,
                len: 2,
            },
        ],
    );
}

#[test]
fn test_fuzz_3() {
    fuzzing(
        2,
        vec![
            Action::Insert {
                actor: 0,
                pos: 0,
                content: 5395,
            },
            Action::Insert {
                actor: 34,
                pos: 34,
                content: 47394,
            },
            Action::Insert {
                actor: 0,
                pos: 0,
                content: 0,
            },
            Action::Insert {
                actor: 34,
                pos: 34,
                content: 8738,
            },
            Action::Insert {
                actor: 34,
                pos: 34,
                content: 8738,
            },
            Action::Delete {
                actor: 72,
                pos: 72,
                len: 72,
            },
            Action::Delete {
                actor: 72,
                pos: 72,
                len: 72,
            },
        ],
    );
}

#[test]
fn test_fuzz_4() {
    fuzzing(
        2,
        vec![
            Action::Delete {
                actor: 72,
                pos: 72,
                len: 32,
            },
            Action::Insert {
                actor: 32,
                pos: 32,
                content: 8224,
            },
            Action::Insert {
                actor: 32,
                pos: 32,
                content: 8224,
            },
            Action::Insert {
                actor: 32,
                pos: 32,
                content: 8224,
            },
            Action::Insert {
                actor: 32,
                pos: 32,
                content: 8224,
            },
            Action::Insert {
                actor: 32,
                pos: 32,
                content: 8224,
            },
            Action::Insert {
                actor: 32,
                pos: 32,
                content: 18464,
            },
            Action::Insert {
                actor: 0,
                pos: 72,
                content: 18504,
            },
            Action::Delete {
                actor: 72,
                pos: 72,
                len: 72,
            },
            Action::Delete {
                actor: 72,
                pos: 255,
                len: 255,
            },
        ],
    );
}

#[test]
fn test_fuzz_5() {
    fuzzing(
        2,
        vec![
            Action::Delete {
                actor: 1,
                pos: 0,
                len: 0,
            },
            Action::Insert {
                actor: 1,
                pos: 0,
                content: 5397,
            },
            Action::Insert {
                actor: 1,
                pos: 1,
                content: 5397,
            },
            Action::Insert {
                actor: 1,
                pos: 3,
                content: 5397,
            },
            Action::Insert {
                actor: 1,
                pos: 8,
                content: 5397,
            },
            Action::Insert {
                actor: 1,
                pos: 4,
                content: 5397,
            },
            Action::Insert {
                actor: 1,
                pos: 0,
                content: 5397,
            },
            Action::Insert {
                actor: 1,
                pos: 21,
                content: 5397,
            },
            Action::Insert {
                actor: 1,
                pos: 21,
                content: 65301,
            },
            Action::Sync(1, 0),
            Action::Sync(1, 0),
            Action::Sync(0, 1),
            Action::Delete {
                actor: 0,
                pos: 4,
                len: 10,
            },
            Action::Delete {
                actor: 0,
                pos: 4,
                len: 10,
            },
        ],
    );
}

#[test]
fn test_fuzz_6() {
    fuzzing(
        2,
        vec![
            Action::Delete {
                actor: 72,
                pos: 72,
                len: 72,
            },
            Action::Insert {
                actor: 0,
                pos: 0,
                content: 18504,
            },
            Action::Insert {
                actor: 20,
                pos: 20,
                content: 5140,
            },
            Action::Insert {
                actor: 20,
                pos: 20,
                content: 5140,
            },
            Action::Insert {
                actor: 20,
                pos: 20,
                content: 5140,
            },
            Action::Insert {
                actor: 20,
                pos: 20,
                content: 5140,
            },
            Action::Insert {
                actor: 20,
                pos: 255,
                content: 65535,
            },
            Action::Sync(255, 255),
            Action::Delete {
                actor: 72,
                pos: 72,
                len: 72,
            },
            Action::Sync(255, 255),
            Action::Delete {
                actor: 255,
                pos: 255,
                len: 255,
            },
        ],
    );
}

#[test]
fn test_fuzz_7() {
    fuzzing(
        2,
        vec![
            Action::Delete {
                actor: 0,
                pos: 0,
                len: 0,
            },
            Action::Delete {
                actor: 0,
                pos: 0,
                len: 0,
            },
            Action::Insert {
                actor: 0,
                pos: 0,
                content: 512,
            },
            Action::Delete {
                actor: 0,
                pos: 0,
                len: 1,
            },
            Action::Insert {
                actor: 0,
                pos: 1,
                content: 5654,
            },
            Action::Insert {
                actor: 0,
                pos: 1,
                content: 5654,
            },
            Action::Insert {
                actor: 0,
                pos: 0,
                content: 5654,
            },
            Action::Insert {
                actor: 0,
                pos: 7,
                content: 5654,
            },
            Action::Insert {
                actor: 0,
                pos: 3,
                content: 5654,
            },
            Action::Insert {
                actor: 0,
                pos: 22,
                content: 5654,
            },
            Action::Insert {
                actor: 0,
                pos: 22,
                content: 5654,
            },
            Action::Insert {
                actor: 0,
                pos: 0,
                content: 0,
            },
            Action::Insert {
                actor: 0,
                pos: 22,
                content: 5654,
            },
            Action::Insert {
                actor: 0,
                pos: 22,
                content: 5654,
            },
            Action::Insert {
                actor: 0,
                pos: 22,
                content: 5654,
            },
            Action::Insert {
                actor: 0,
                pos: 22,
                content: 5654,
            },
            Action::Insert {
                actor: 0,
                pos: 22,
                content: 5654,
            },
            Action::Insert {
                actor: 0,
                pos: 22,
                content: 5654,
            },
            Action::Sync(1, 0),
            Action::Sync(1, 0),
            Action::Insert {
                actor: 0,
                pos: 31,
                content: 65535,
            },
            Action::Sync(1, 0),
            Action::Sync(1, 0),
            Action::Sync(1, 0),
            Action::Sync(1, 0),
            Action::Delete {
                actor: 0,
                pos: 11,
                len: 10,
            },
            Action::Delete {
                actor: 0,
                pos: 21,
                len: 10,
            },
            Action::Sync(1, 0),
            Action::Insert {
                actor: 0,
                pos: 0,
                content: 0,
            },
            Action::Sync(0, 1),
            Action::Sync(1, 0),
            Action::Sync(1, 0),
            Action::Delete {
                actor: 0,
                pos: 30,
                len: 10,
            },
            Action::Delete {
                actor: 0,
                pos: 8,
                len: 10,
            },
            Action::Delete {
                actor: 1,
                pos: 3,
                len: 10,
            },
            Action::Sync(1, 0),
            Action::Insert {
                actor: 0,
                pos: 0,
                content: 0,
            },
            Action::Insert {
                actor: 0,
                pos: 0,
                content: 0,
            },
            Action::Insert {
                actor: 0,
                pos: 0,
                content: 65535,
            },
        ],
    );
}

#[test]
fn test_fuzz_8() {
    fuzzing(
        2,
        vec![
            Action::Delete {
                actor: 179,
                pos: 72,
                len: 21,
            },
            Action::Delete {
                actor: 29,
                pos: 29,
                len: 29,
            },
            Action::Insert {
                actor: 29,
                pos: 29,
                content: 7453,
            },
            Action::Insert {
                actor: 29,
                pos: 29,
                content: 7453,
            },
            Action::Insert {
                actor: 29,
                pos: 29,
                content: 7453,
            },
            Action::Insert {
                actor: 29,
                pos: 29,
                content: 7453,
            },
            Action::Insert {
                actor: 34,
                pos: 34,
                content: 8738,
            },
            Action::Insert {
                actor: 34,
                pos: 34,
                content: 8738,
            },
            Action::Insert {
                actor: 34,
                pos: 34,
                content: 10786,
            },
            Action::Insert {
                actor: 34,
                pos: 34,
                content: 8738,
            },
            Action::Insert {
                actor: 92,
                pos: 34,
                content: 8738,
            },
            Action::Insert {
                actor: 34,
                pos: 34,
                content: 8738,
            },
            Action::Insert {
                actor: 34,
                pos: 34,
                content: 8738,
            },
            Action::Insert {
                actor: 34,
                pos: 34,
                content: 8738,
            },
            Action::Insert {
                actor: 34,
                pos: 34,
                content: 8994,
            },
            Action::Insert {
                actor: 34,
                pos: 34,
                content: 8738,
            },
            Action::Insert {
                actor: 34,
                pos: 34,
                content: 8738,
            },
            Action::Insert {
                actor: 34,
                pos: 34,
                content: 8738,
            },
            Action::Insert {
                actor: 34,
                pos: 34,
                content: 8738,
            },
            Action::Insert {
                actor: 34,
                pos: 34,
                content: 8738,
            },
            Action::Insert {
                actor: 9,
                pos: 9,
                content: 2313,
            },
            Action::Insert {
                actor: 34,
                pos: 34,
                content: 8738,
            },
            Action::Insert {
                actor: 34,
                pos: 34,
                content: 8738,
            },
            Action::Insert {
                actor: 34,
                pos: 34,
                content: 8738,
            },
            Action::Insert {
                actor: 34,
                pos: 34,
                content: 8738,
            },
            Action::Insert {
                actor: 34,
                pos: 34,
                content: 8738,
            },
            Action::Insert {
                actor: 34,
                pos: 34,
                content: 8738,
            },
            Action::Insert {
                actor: 34,
                pos: 34,
                content: 8738,
            },
            Action::Insert {
                actor: 34,
                pos: 34,
                content: 7458,
            },
            Action::Insert {
                actor: 29,
                pos: 29,
                content: 7453,
            },
            Action::Insert {
                actor: 29,
                pos: 29,
                content: 7453,
            },
            Action::Insert {
                actor: 29,
                pos: 29,
                content: 7453,
            },
            Action::Insert {
                actor: 29,
                pos: 29,
                content: 7453,
            },
            Action::Insert {
                actor: 29,
                pos: 156,
                content: 40092,
            },
            Action::Insert {
                actor: 34,
                pos: 34,
                content: 8738,
            },
            Action::Insert {
                actor: 34,
                pos: 34,
                content: 8738,
            },
            Action::Insert {
                actor: 34,
                pos: 34,
                content: 8738,
            },
            Action::Insert {
                actor: 34,
                pos: 34,
                content: 8738,
            },
            Action::Insert {
                actor: 34,
                pos: 34,
                content: 8738,
            },
            Action::Insert {
                actor: 34,
                pos: 34,
                content: 8738,
            },
            Action::Insert {
                actor: 34,
                pos: 34,
                content: 8738,
            },
            Action::Insert {
                actor: 34,
                pos: 34,
                content: 8739,
            },
            Action::Insert {
                actor: 34,
                pos: 34,
                content: 8738,
            },
            Action::Insert {
                actor: 34,
                pos: 34,
                content: 8738,
            },
            Action::Insert {
                actor: 34,
                pos: 34,
                content: 8738,
            },
            Action::Insert {
                actor: 34,
                pos: 34,
                content: 8738,
            },
            Action::Insert {
                actor: 6,
                pos: 6,
                content: 1542,
            },
            Action::Insert {
                actor: 6,
                pos: 6,
                content: 1542,
            },
            Action::Insert {
                actor: 6,
                pos: 6,
                content: 1542,
            },
            Action::Insert {
                actor: 6,
                pos: 6,
                content: 1542,
            },
            Action::Insert {
                actor: 6,
                pos: 6,
                content: 1542,
            },
            Action::Insert {
                actor: 6,
                pos: 6,
                content: 1542,
            },
            Action::Insert {
                actor: 6,
                pos: 6,
                content: 1542,
            },
            Action::Insert {
                actor: 6,
                pos: 6,
                content: 1542,
            },
            Action::Insert {
                actor: 6,
                pos: 6,
                content: 1542,
            },
            Action::Insert {
                actor: 0,
                pos: 34,
                content: 8738,
            },
            Action::Insert {
                actor: 34,
                pos: 34,
                content: 8738,
            },
            Action::Insert {
                actor: 9,
                pos: 9,
                content: 2313,
            },
            Action::Insert {
                actor: 9,
                pos: 9,
                content: 2313,
            },
            Action::Insert {
                actor: 9,
                pos: 9,
                content: 2313,
            },
            Action::Insert {
                actor: 9,
                pos: 9,
                content: 2313,
            },
            Action::Insert {
                actor: 0,
                pos: 0,
                content: 2304,
            },
            Action::Insert {
                actor: 9,
                pos: 9,
                content: 2313,
            },
            Action::Insert {
                actor: 9,
                pos: 9,
                content: 2313,
            },
            Action::Insert {
                actor: 9,
                pos: 9,
                content: 2313,
            },
            Action::Insert {
                actor: 9,
                pos: 9,
                content: 2313,
            },
            Action::Insert {
                actor: 9,
                pos: 9,
                content: 2313,
            },
            Action::Insert {
                actor: 9,
                pos: 9,
                content: 63228,
            },
            Action::Insert {
                actor: 34,
                pos: 34,
                content: 8738,
            },
            Action::Insert {
                actor: 42,
                pos: 34,
                content: 8738,
            },
            Action::Insert {
                actor: 0,
                pos: 0,
                content: 0,
            },
            Action::Insert {
                actor: 0,
                pos: 0,
                content: 0,
            },
            Action::Insert {
                actor: 0,
                pos: 34,
                content: 8738,
            },
            Action::Insert {
                actor: 34,
                pos: 34,
                content: 8738,
            },
            Action::Insert {
                actor: 34,
                pos: 34,
                content: 8738,
            },
            Action::Insert {
                actor: 34,
                pos: 34,
                content: 8738,
            },
            Action::Insert {
                actor: 34,
                pos: 34,
                content: 8739,
            },
            Action::Insert {
                actor: 34,
                pos: 34,
                content: 8738,
            },
            Action::Insert {
                actor: 34,
                pos: 34,
                content: 8738,
            },
            Action::Sync(231, 231),
            Action::Sync(231, 231),
            Action::Sync(231, 231),
            Action::Insert {
                actor: 34,
                pos: 34,
                content: 8738,
            },
            Action::Insert {
                actor: 34,
                pos: 34,
                content: 8738,
            },
            Action::Insert {
                actor: 34,
                pos: 34,
                content: 8738,
            },
            Action::Insert {
                actor: 34,
                pos: 34,
                content: 8738,
            },
            Action::Insert {
                actor: 34,
                pos: 34,
                content: 8738,
            },
            Action::Insert {
                actor: 34,
                pos: 34,
                content: 8738,
            },
            Action::Insert {
                actor: 34,
                pos: 34,
                content: 8738,
            },
            Action::Insert {
                actor: 34,
                pos: 34,
                content: 8738,
            },
            Action::Insert {
                actor: 34,
                pos: 42,
                content: 8738,
            },
            Action::Insert {
                actor: 34,
                pos: 0,
                content: 0,
            },
            Action::Delete {
                actor: 72,
                pos: 72,
                len: 72,
            },
            Action::Delete {
                actor: 72,
                pos: 72,
                len: 255,
            },
            Action::Insert {
                actor: 34,
                pos: 34,
                content: 8738,
            },
            Action::Insert {
                actor: 34,
                pos: 34,
                content: 8738,
            },
            Action::Insert {
                actor: 34,
                pos: 34,
                content: 8738,
            },
            Action::Insert {
                actor: 34,
                pos: 34,
                content: 8738,
            },
            Action::Insert {
                actor: 34,
                pos: 34,
                content: 8738,
            },
            Action::Insert {
                actor: 34,
                pos: 34,
                content: 42,
            },
            Action::Sync(255, 255),
            Action::Insert {
                actor: 5,
                pos: 0,
                content: 0,
            },
            Action::Insert {
                actor: 0,
                pos: 0,
                content: 0,
            },
            Action::Insert {
                actor: 0,
                pos: 0,
                content: 0,
            },
            Action::Insert {
                actor: 0,
                pos: 0,
                content: 0,
            },
            Action::Insert {
                actor: 0,
                pos: 0,
                content: 0,
            },
            Action::Insert {
                actor: 0,
                pos: 0,
                content: 0,
            },
            Action::Insert {
                actor: 0,
                pos: 0,
                content: 0,
            },
            Action::Insert {
                actor: 0,
                pos: 0,
                content: 0,
            },
            Action::Insert {
                actor: 0,
                pos: 0,
                content: 0,
            },
            Action::Insert {
                actor: 0,
                pos: 0,
                content: 0,
            },
            Action::Insert {
                actor: 0,
                pos: 0,
                content: 0,
            },
            Action::Insert {
                actor: 0,
                pos: 0,
                content: 0,
            },
            Action::Insert {
                actor: 0,
                pos: 0,
                content: 0,
            },
            Action::Insert {
                actor: 34,
                pos: 34,
                content: 16674,
            },
            Action::Insert {
                actor: 0,
                pos: 4,
                content: 512,
            },
            Action::Delete {
                actor: 72,
                pos: 72,
                len: 72,
            },
            Action::Delete {
                actor: 72,
                pos: 72,
                len: 72,
            },
            Action::Delete {
                actor: 72,
                pos: 72,
                len: 72,
            },
            Action::Delete {
                actor: 40,
                pos: 72,
                len: 72,
            },
            Action::Delete {
                actor: 72,
                pos: 72,
                len: 72,
            },
            Action::Delete {
                actor: 72,
                pos: 72,
                len: 72,
            },
            Action::Delete {
                actor: 72,
                pos: 72,
                len: 72,
            },
            Action::Delete {
                actor: 34,
                pos: 34,
                len: 34,
            },
            Action::Insert {
                actor: 34,
                pos: 34,
                content: 8738,
            },
            Action::Insert {
                actor: 34,
                pos: 34,
                content: 8738,
            },
            Action::Insert {
                actor: 34,
                pos: 34,
                content: 22873,
            },
            Action::Delete {
                actor: 89,
                pos: 89,
                len: 89,
            },
            Action::Delete {
                actor: 89,
                pos: 89,
                len: 89,
            },
            Action::Delete {
                actor: 72,
                pos: 72,
                len: 72,
            },
            Action::Delete {
                actor: 72,
                pos: 72,
                len: 72,
            },
            Action::Insert {
                actor: 34,
                pos: 34,
                content: 8738,
            },
            Action::Insert {
                actor: 34,
                pos: 34,
                content: 8738,
            },
            Action::Insert {
                actor: 34,
                pos: 34,
                content: 8738,
            },
            Action::Insert {
                actor: 34,
                pos: 34,
                content: 22562,
            },
            Action::Delete {
                actor: 88,
                pos: 88,
                len: 88,
            },
            Action::Delete {
                actor: 88,
                pos: 88,
                len: 88,
            },
            Action::Delete {
                actor: 88,
                pos: 88,
                len: 0,
            },
            Action::Insert {
                actor: 0,
                pos: 0,
                content: 0,
            },
            Action::Insert {
                actor: 0,
                pos: 0,
                content: 0,
            },
            Action::Insert {
                actor: 0,
                pos: 34,
                content: 2338,
            },
            Action::Insert {
                actor: 9,
                pos: 34,
                content: 8738,
            },
            Action::Insert {
                actor: 34,
                pos: 34,
                content: 8738,
            },
            Action::Insert {
                actor: 34,
                pos: 34,
                content: 8738,
            },
            Action::Insert {
                actor: 34,
                pos: 34,
                content: 8738,
            },
            Action::Insert {
                actor: 34,
                pos: 34,
                content: 8738,
            },
            Action::Insert {
                actor: 34,
                pos: 34,
                content: 8738,
            },
            Action::Insert {
                actor: 34,
                pos: 34,
                content: 8738,
            },
            Action::Insert {
                actor: 34,
                pos: 34,
                content: 8738,
            },
            Action::Insert {
                actor: 29,
                pos: 29,
                content: 7453,
            },
            Action::Insert {
                actor: 29,
                pos: 29,
                content: 7453,
            },
            Action::Insert {
                actor: 29,
                pos: 29,
                content: 7453,
            },
            Action::Insert {
                actor: 0,
                pos: 0,
                content: 0,
            },
            Action::Insert {
                actor: 2,
                pos: 34,
                content: 8738,
            },
            Action::Insert {
                actor: 0,
                pos: 0,
                content: 4,
            },
            Action::Delete {
                actor: 72,
                pos: 72,
                len: 72,
            },
            Action::Delete {
                actor: 72,
                pos: 72,
                len: 72,
            },
            Action::Delete {
                actor: 72,
                pos: 72,
                len: 72,
            },
            Action::Delete {
                actor: 1,
                pos: 254,
                len: 72,
            },
            Action::Delete {
                actor: 72,
                pos: 72,
                len: 72,
            },
            Action::Delete {
                actor: 72,
                pos: 72,
                len: 72,
            },
            Action::Delete {
                actor: 72,
                pos: 72,
                len: 72,
            },
            Action::Delete {
                actor: 89,
                pos: 89,
                len: 89,
            },
            Action::Delete {
                actor: 89,
                pos: 89,
                len: 89,
            },
            Action::Delete {
                actor: 89,
                pos: 89,
                len: 89,
            },
            Action::Delete {
                actor: 89,
                pos: 89,
                len: 89,
            },
            Action::Delete {
                actor: 88,
                pos: 88,
                len: 88,
            },
            Action::Insert {
                actor: 0,
                pos: 0,
                content: 0,
            },
            Action::Insert {
                actor: 0,
                pos: 0,
                content: 0,
            },
            Action::Insert {
                actor: 86,
                pos: 0,
                content: 0,
            },
            Action::Insert {
                actor: 0,
                pos: 0,
                content: 0,
            },
            Action::Insert {
                actor: 34,
                pos: 65,
                content: 34,
            },
            Action::Insert {
                actor: 0,
                pos: 2,
                content: 18432,
            },
            Action::Delete {
                actor: 72,
                pos: 72,
                len: 72,
            },
            Action::Delete {
                actor: 72,
                pos: 72,
                len: 72,
            },
            Action::Delete {
                actor: 72,
                pos: 72,
                len: 72,
            },
            Action::Delete {
                actor: 40,
                pos: 72,
                len: 72,
            },
            Action::Delete {
                actor: 72,
                pos: 72,
                len: 72,
            },
            Action::Delete {
                actor: 72,
                pos: 72,
                len: 72,
            },
            Action::Delete {
                actor: 72,
                pos: 89,
                len: 89,
            },
            Action::Delete {
                actor: 89,
                pos: 89,
                len: 89,
            },
        ],
    );
}

#[test]
fn test_fuzz_9() {
    fuzzing(
        2,
        vec![
            Action::Delete {
                actor: 184,
                pos: 183,
                len: 183,
            },
            Action::Insert {
                actor: 2,
                pos: 0,
                content: 0,
            },
            Action::Insert {
                actor: 0,
                pos: 0,
                content: 0,
            },
            Action::Insert {
                actor: 0,
                pos: 0,
                content: 0,
            },
            Action::Insert {
                actor: 0,
                pos: 0,
                content: 0,
            },
            Action::Insert {
                actor: 0,
                pos: 255,
                content: 65535,
            },
            Action::Sync(255, 255),
            Action::Delete {
                actor: 255,
                pos: 255,
                len: 255,
            },
        ],
    );
}

#[test]
fn test_fuzz_10() {
    fuzzing(
        2,
        vec![
            Action::Annotate {
                actor: 72,
                pos: 72,
                len: 72,
                annotation: AnnotationType::Bold,
            },
            Action::Delete {
                actor: 72,
                pos: 72,
                len: 72,
            },
            Action::Delete {
                actor: 72,
                pos: 72,
                len: 72,
            },
            Action::Sync(255, 255),
            Action::Sync(255, 255),
            Action::Sync(255, 26),
            Action::Insert {
                actor: 26,
                pos: 26,
                content: 6682,
            },
            Action::Insert {
                actor: 26,
                pos: 128,
                content: 18504,
            },
            Action::Annotate {
                actor: 183,
                pos: 183,
                len: 187,
                annotation: AnnotationType::Bold,
            },
            Action::Delete {
                actor: 72,
                pos: 72,
                len: 72,
            },
            Action::Delete {
                actor: 255,
                pos: 255,
                len: 255,
            },
            Action::Sync(255, 255),
            Action::Sync(255, 255),
            Action::Insert {
                actor: 63,
                pos: 0,
                content: 0,
            },
            Action::Annotate {
                actor: 128,
                pos: 128,
                len: 128,
                annotation: AnnotationType::Comment,
            },
            Action::Annotate {
                actor: 128,
                pos: 128,
                len: 0,
                annotation: AnnotationType::Link,
            },
            Action::Delete {
                actor: 72,
                pos: 72,
                len: 72,
            },
            Action::Delete {
                actor: 255,
                pos: 223,
                len: 255,
            },
            Action::Annotate {
                actor: 128,
                pos: 128,
                len: 128,
                annotation: AnnotationType::Comment,
            },
            Action::Delete {
                actor: 72,
                pos: 72,
                len: 72,
            },
            Action::Delete {
                actor: 72,
                pos: 91,
                len: 72,
            },
            Action::Insert {
                actor: 0,
                pos: 0,
                content: 18504,
            },
            Action::Delete {
                actor: 72,
                pos: 72,
                len: 72,
            },
            Action::Annotate {
                actor: 183,
                pos: 183,
                len: 187,
                annotation: AnnotationType::Bold,
            },
            Action::Delete {
                actor: 91,
                pos: 72,
                len: 72,
            },
            Action::Delete {
                actor: 72,
                pos: 255,
                len: 255,
            },
            Action::Delete {
                actor: 72,
                pos: 72,
                len: 72,
            },
            Action::Delete {
                actor: 72,
                pos: 72,
                len: 72,
            },
            Action::Delete {
                actor: 255,
                pos: 255,
                len: 255,
            },
            Action::Sync(255, 255),
            Action::Sync(255, 255),
            Action::Insert {
                actor: 63,
                pos: 0,
                content: 0,
            },
            Action::Annotate {
                actor: 128,
                pos: 128,
                len: 128,
                annotation: AnnotationType::Comment,
            },
            Action::Annotate {
                actor: 128,
                pos: 128,
                len: 0,
                annotation: AnnotationType::Link,
            },
            Action::Delete {
                actor: 72,
                pos: 72,
                len: 72,
            },
            Action::Delete {
                actor: 255,
                pos: 223,
                len: 255,
            },
            Action::Annotate {
                actor: 128,
                pos: 128,
                len: 128,
                annotation: AnnotationType::Comment,
            },
            Action::Delete {
                actor: 72,
                pos: 72,
                len: 72,
            },
            Action::Delete {
                actor: 72,
                pos: 91,
                len: 72,
            },
            Action::Insert {
                actor: 0,
                pos: 0,
                content: 18504,
            },
            Action::Delete {
                actor: 72,
                pos: 72,
                len: 72,
            },
            Action::Annotate {
                actor: 183,
                pos: 183,
                len: 187,
                annotation: AnnotationType::Bold,
            },
            Action::Delete {
                actor: 72,
                pos: 72,
                len: 72,
            },
            Action::Delete {
                actor: 255,
                pos: 255,
                len: 255,
            },
            Action::Sync(255, 255),
            Action::Sync(255, 255),
            Action::Insert {
                actor: 63,
                pos: 0,
                content: 0,
            },
            Action::Annotate {
                actor: 128,
                pos: 128,
                len: 128,
                annotation: AnnotationType::Comment,
            },
            Action::Annotate {
                actor: 128,
                pos: 128,
                len: 0,
                annotation: AnnotationType::Link,
            },
            Action::Delete {
                actor: 72,
                pos: 72,
                len: 72,
            },
            Action::Delete {
                actor: 255,
                pos: 223,
                len: 255,
            },
            Action::Annotate {
                actor: 128,
                pos: 128,
                len: 128,
                annotation: AnnotationType::Comment,
            },
            Action::Delete {
                actor: 72,
                pos: 72,
                len: 72,
            },
            Action::Delete {
                actor: 72,
                pos: 91,
                len: 72,
            },
            Action::Insert {
                actor: 0,
                pos: 0,
                content: 18504,
            },
            Action::Delete {
                actor: 72,
                pos: 72,
                len: 72,
            },
            Action::Annotate {
                actor: 183,
                pos: 183,
                len: 187,
                annotation: AnnotationType::Bold,
            },
            Action::Delete {
                actor: 72,
                pos: 72,
                len: 72,
            },
            Action::Delete {
                actor: 5,
                pos: 72,
                len: 161,
            },
            Action::Delete {
                actor: 104,
                pos: 72,
                len: 72,
            },
            Action::Sync(5, 63),
            Action::Insert {
                actor: 0,
                pos: 0,
                content: 32896,
            },
            Action::Annotate {
                actor: 128,
                pos: 128,
                len: 128,
                annotation: AnnotationType::Comment,
            },
            Action::Annotate {
                actor: 72,
                pos: 45,
                len: 72,
                annotation: AnnotationType::Comment,
            },
            Action::Insert {
                actor: 0,
                pos: 0,
                content: 1,
            },
            Action::Delete {
                actor: 72,
                pos: 72,
                len: 72,
            },
            Action::Annotate {
                actor: 178,
                pos: 178,
                len: 178,
                annotation: AnnotationType::UnBold,
            },
            Action::Annotate {
                actor: 178,
                pos: 178,
                len: 178,
                annotation: AnnotationType::UnBold,
            },
            Action::Annotate {
                actor: 178,
                pos: 178,
                len: 178,
                annotation: AnnotationType::UnBold,
            },
            Action::Annotate {
                actor: 178,
                pos: 255,
                len: 255,
                annotation: AnnotationType::UnBold,
            },
            Action::Annotate {
                actor: 185,
                pos: 72,
                len: 72,
                annotation: AnnotationType::Bold,
            },
            Action::Delete {
                actor: 72,
                pos: 72,
                len: 72,
            },
            Action::Delete {
                actor: 72,
                pos: 72,
                len: 72,
            },
            Action::Delete {
                actor: 72,
                pos: 72,
                len: 206,
            },
            Action::Delete {
                actor: 72,
                pos: 72,
                len: 72,
            },
            Action::Delete {
                actor: 72,
                pos: 185,
                len: 72,
            },
            Action::Delete {
                actor: 72,
                pos: 72,
                len: 72,
            },
            Action::Delete {
                actor: 72,
                pos: 72,
                len: 72,
            },
            Action::Insert {
                actor: 72,
                pos: 72,
                content: 18504,
            },
            Action::Delete {
                actor: 72,
                pos: 185,
                len: 72,
            },
            Action::Sync(255, 255),
            Action::Sync(255, 255),
            Action::Sync(255, 255),
            Action::Sync(128, 128),
            Action::Annotate {
                actor: 128,
                pos: 128,
                len: 128,
                annotation: AnnotationType::Comment,
            },
            Action::Delete {
                actor: 45,
                pos: 72,
                len: 91,
            },
            Action::Insert {
                actor: 129,
                pos: 0,
                content: 0,
            },
            Action::Delete {
                actor: 72,
                pos: 72,
                len: 72,
            },
            Action::Delete {
                actor: 72,
                pos: 191,
                len: 72,
            },
            Action::Annotate {
                actor: 72,
                pos: 72,
                len: 72,
                annotation: AnnotationType::UnLink,
            },
            Action::Sync(255, 255),
            Action::Sync(255, 255),
            Action::Sync(255, 255),
            Action::Insert {
                actor: 255,
                pos: 255,
                content: 65535,
            },
            Action::Annotate {
                actor: 183,
                pos: 183,
                len: 183,
                annotation: AnnotationType::Bold,
            },
            Action::Annotate {
                actor: 72,
                pos: 72,
                len: 72,
                annotation: AnnotationType::Bold,
            },
            Action::Delete {
                actor: 72,
                pos: 72,
                len: 72,
            },
            Action::Delete {
                actor: 206,
                pos: 1,
                len: 0,
            },
            Action::Delete {
                actor: 72,
                pos: 72,
                len: 72,
            },
            Action::Annotate {
                actor: 72,
                pos: 72,
                len: 184,
                annotation: AnnotationType::Bold,
            },
            Action::Delete {
                actor: 72,
                pos: 72,
                len: 91,
            },
            Action::Delete {
                actor: 72,
                pos: 72,
                len: 72,
            },
            Action::Sync(255, 255),
            Action::Sync(255, 255),
            Action::Sync(255, 255),
            Action::Insert {
                actor: 0,
                pos: 0,
                content: 0,
            },
            Action::Annotate {
                actor: 128,
                pos: 128,
                len: 128,
                annotation: AnnotationType::Comment,
            },
            Action::Insert {
                actor: 0,
                pos: 0,
                content: 0,
            },
            Action::Delete {
                actor: 72,
                pos: 72,
                len: 72,
            },
            Action::Delete {
                actor: 255,
                pos: 223,
                len: 255,
            },
            Action::Annotate {
                actor: 128,
                pos: 128,
                len: 128,
                annotation: AnnotationType::Comment,
            },
            Action::Delete {
                actor: 72,
                pos: 72,
                len: 72,
            },
            Action::Delete {
                actor: 72,
                pos: 91,
                len: 72,
            },
            Action::Insert {
                actor: 0,
                pos: 0,
                content: 18504,
            },
            Action::Delete {
                actor: 72,
                pos: 72,
                len: 72,
            },
            Action::Annotate {
                actor: 183,
                pos: 183,
                len: 187,
                annotation: AnnotationType::Bold,
            },
            Action::Delete {
                actor: 72,
                pos: 72,
                len: 72,
            },
            Action::Delete {
                actor: 255,
                pos: 255,
                len: 255,
            },
            Action::Sync(255, 255),
            Action::Sync(255, 255),
            Action::Insert {
                actor: 63,
                pos: 0,
                content: 0,
            },
            Action::Annotate {
                actor: 128,
                pos: 128,
                len: 128,
                annotation: AnnotationType::Comment,
            },
            Action::Annotate {
                actor: 128,
                pos: 128,
                len: 0,
                annotation: AnnotationType::Link,
            },
            Action::Delete {
                actor: 72,
                pos: 72,
                len: 72,
            },
            Action::Delete {
                actor: 255,
                pos: 223,
                len: 255,
            },
            Action::Annotate {
                actor: 128,
                pos: 128,
                len: 128,
                annotation: AnnotationType::Comment,
            },
            Action::Delete {
                actor: 72,
                pos: 72,
                len: 72,
            },
            Action::Delete {
                actor: 72,
                pos: 91,
                len: 72,
            },
            Action::Insert {
                actor: 0,
                pos: 0,
                content: 18504,
            },
            Action::Delete {
                actor: 72,
                pos: 72,
                len: 72,
            },
            Action::Annotate {
                actor: 183,
                pos: 183,
                len: 187,
                annotation: AnnotationType::Bold,
            },
            Action::Delete {
                actor: 72,
                pos: 72,
                len: 72,
            },
            Action::Annotate {
                actor: 178,
                pos: 178,
                len: 178,
                annotation: AnnotationType::UnBold,
            },
            Action::Annotate {
                actor: 178,
                pos: 178,
                len: 178,
                annotation: AnnotationType::UnBold,
            },
            Action::Annotate {
                actor: 178,
                pos: 178,
                len: 178,
                annotation: AnnotationType::UnBold,
            },
            Action::Annotate {
                actor: 178,
                pos: 178,
                len: 178,
                annotation: AnnotationType::UnLink,
            },
            Action::Sync(255, 255),
            Action::Insert {
                actor: 0,
                pos: 0,
                content: 3840,
            },
            Action::Insert {
                actor: 0,
                pos: 0,
                content: 65280,
            },
        ],
    )
}

#[test]
fn test_fuzz_11() {
    fuzzing(
        2,
        vec![
            Action::Insert {
                actor: 0,
                pos: 0,
                content: 22222,
            },
            Action::Sync(1, 0),
            Action::Insert {
                actor: 0,
                pos: 0,
                content: 33333,
            },
            Action::Insert {
                actor: 1,
                pos: 0,
                content: 44444,
            },
            Action::Delete {
                actor: 1,
                pos: 4,
                len: 1,
            },
        ],
    )
}

#[test]
fn test_fuzz_12() {
    fuzzing(
        3,
        vec![
            Action::Insert {
                actor: 2,
                pos: 0,
                content: 2,
            },
            Action::Sync(0, 2),
            Action::Insert {
                actor: 1,
                pos: 0,
                content: 1,
            },
            Action::Insert {
                actor: 0,
                pos: 0,
                content: 0,
            },
        ],
    )
}

#[test]
fn test_fuzz_13() {
    fuzzing(
        5,
        vec![
            Action::Insert {
                actor: 4,
                pos: 0,
                content: 44,
            },
            Action::Sync(2, 4),
            Action::Insert {
                actor: 0,
                pos: 0,
                content: 0,
            },
            Action::Sync(0, 4),
            Action::Insert {
                actor: 2,
                pos: 2,
                content: 2,
            },
            Action::Insert {
                actor: 0,
                pos: 3,
                content: 1,
            },
            Action::Sync(4, 0),
            Action::Insert {
                actor: 4,
                pos: 3,
                content: 55,
            },
        ],
    )
}

#[test]
fn test_fuzz_14() {
    fuzzing(
        5,
        vec![
            Action::Insert {
                actor: 4,
                pos: 0,
                content: 0,
            },
            Action::Insert {
                actor: 1,
                pos: 0,
                content: 256,
            },
            Action::Sync(0, 1),
            Action::Sync(0, 4),
            Action::Delete {
                actor: 0,
                pos: 0,
                len: 1,
            },
            Action::Delete {
                actor: 0,
                pos: 0,
                len: 1,
            },
            Action::Insert {
                actor: 1,
                pos: 1,
                content: 0,
            },
            Action::Delete {
                actor: 0,
                pos: 0,
                len: 1,
            },
            Action::Sync(0, 1),
            Action::Delete {
                actor: 0,
                pos: 0,
                len: 1,
            },
        ],
    )
}

#[test]
fn test_fuzz_15() {
    fuzzing(
        5,
        vec![
            Action::Insert {
                actor: 0,
                pos: 0,
                content: 38,
            },
            Action::Sync(1, 0),
            Action::Insert {
                actor: 1,
                pos: 0,
                content: 256,
            },
            Action::Sync(0, 1),
            Action::Delete {
                actor: 0,
                pos: 0,
                len: 1,
            },
            Action::Sync(1, 0),
            Action::Delete {
                actor: 0,
                pos: 0,
                len: 1,
            },
            Action::Insert {
                actor: 1,
                pos: 1,
                content: 0,
            },
            Action::Delete {
                actor: 0,
                pos: 0,
                len: 1,
            },
            Action::Sync(0, 1),
            Action::Delete {
                actor: 0,
                pos: 0,
                len: 1,
            },
        ],
    );
}

#[test]
fn test_fuzz_16() {
    assert!(fuzzing_match_str(vec![
        Action::Insert {
            actor: 2,
            pos: 252,
            content: 54247,
        },
        Action::Insert {
            actor: 252,
            pos: 231,
            content: 54042,
        },
        Action::Insert {
            actor: 67,
            pos: 63,
            content: 17219,
        },
        Action::Insert {
            actor: 0,
            pos: 0,
            content: 17219,
        },
        Action::Annotate {
            actor: 79,
            pos: 79,
            len: 79,
            annotation: AnnotationType::Link,
        },
        Action::Delete {
            actor: 79,
            pos: 79,
            len: 79,
        },
        Action::Delete {
            actor: 133,
            pos: 79,
            len: 79,
        },
    ]));
}

#[test]
fn test_fuzz_17() {
    fuzzing(
        2,
        vec![
            Action::Insert {
                actor: 0,
                pos: 0,
                content: 22222,
            },
            Action::Sync(1, 0),
            Action::Insert {
                actor: 0,
                pos: 3,
                content: 33333,
            },
            Action::Insert {
                actor: 1,
                pos: 3,
                content: 111,
            },
            Action::Sync(0, 1),
            Action::Annotate {
                actor: 0,
                pos: 1,
                len: 10,
                annotation: AnnotationType::Link,
            },
            Action::Insert {
                actor: 0,
                pos: 0,
                content: 44444,
            },
            Action::Insert {
                actor: 0,
                pos: 0,
                content: 55555,
            },
            Action::Sync(1, 0),
            Action::Sync(0, 1),
            Action::Insert {
                actor: 1,
                pos: 21,
                content: 6666,
            },
        ],
    )
}
