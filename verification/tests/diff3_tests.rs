use git_rs::diff3::{Chunk, Diff3};
use git_rs::myers::Line;

#[test]
fn diff3_example() {
    let o = [
        Line(1, b"a".to_vec()),
        Line(2, b"b".to_vec()),
        Line(3, b"c".to_vec()),
        Line(4, b"d".to_vec()),
        Line(5, b"e".to_vec()),
        Line(6, b"f".to_vec()),
    ];

    let a = [
        Line(1, b"a".to_vec()),
        Line(2, b"d".to_vec()),
        Line(3, b"e".to_vec()),
        Line(4, b"b".to_vec()),
        Line(5, b"c".to_vec()),
        Line(6, b"f".to_vec()),
    ];

    let b = [
        Line(1, b"a".to_vec()),
        Line(2, b"d".to_vec()),
        Line(3, b"b".to_vec()),
        Line(4, b"c".to_vec()),
        Line(5, b"e".to_vec()),
        Line(6, b"f".to_vec()),
    ];

    let diff3 = Diff3::from_lines(&o[..], &a[..], &b[..]);
    let actual = diff3.compare();

    let expected = [
        Chunk::Normal(vec![Line(1, b"a".to_vec())]),
        Chunk::Conflict {
            o: vec![
                Line(2, b"b".to_vec()),
                Line(3, b"c".to_vec()),
                Line(4, b"d".to_vec()),
            ],
            a: vec![Line(2, b"d".to_vec())],
            b: vec![
                Line(2, b"d".to_vec()),
                Line(3, b"b".to_vec()),
                Line(4, b"c".to_vec()),
            ],
        },
        Chunk::Normal(vec![Line(3, b"e".to_vec())]),
        Chunk::Normal(vec![Line(4, b"b".to_vec()), Line(5, b"c".to_vec())]),
        Chunk::Normal(vec![Line(6, b"f".to_vec())]),
    ];

    assert_eq!(actual, expected);
}

#[test]
fn diff3_same_sides_give_one_chunk() {
    let text = b"x\ny\nz";
    let chunks = Diff3::new(text, text, text).compare();
    assert_eq!(
        chunks,
        vec![Chunk::Normal(vec![
            Line(1, b"x".to_vec()),
            Line(2, b"y".to_vec()),
            Line(3, b"z".to_vec()),
        ])]
    );
}

#[test]
fn diff3_one_side_changed_wins() {
    let o = b"a\nb\nc\n";
    let left = b"a\nB\nc\n";
    let chunks = Diff3::new(o, left, o).compare();
    let mut text = Vec::new();
    for c in &chunks {
        match c {
            Chunk::Normal(lines) => {
                for l in lines {
                    text.extend_from_slice(&l.1);
                }
            },
            Chunk::Conflict { .. } => panic!("no conflict expected"),
        }
    }
    assert_eq!(text, b"aBc".to_vec());
}
