use git_rs::myers::{lines, Action, Edit, Line, Myers};

#[test]
fn myers_example() {
    let a = b"A\nB\nC\nA\nB\nB\nA";
    let a = lines(a);

    let b = b"C\nB\nA\nB\nA\nC";
    let b = lines(b);

    let alg = Myers::from_lines(&a, &b);
    let actual = alg.compare();

    let expected = [
        Edit::delete(Line(1, b"A".to_vec())),
        Edit::delete(Line(2, b"B".to_vec())),
        Edit::nothing(Line(3, b"C".to_vec()), Line(1, b"C".to_vec())),
        Edit::delete(Line(4, b"A".to_vec())),
        Edit::nothing(Line(5, b"B".to_vec()), Line(2, b"B".to_vec())),
        Edit::add(Line(3, b"A".to_vec())),
        Edit::nothing(Line(6, b"B".to_vec()), Line(4, b"B".to_vec())),
        Edit::nothing(Line(7, b"A".to_vec()), Line(5, b"A".to_vec())),
        Edit::add(Line(6, b"C".to_vec())),
    ];

    assert_eq!(actual, expected);
}

#[test]
fn lines_split_at_newlines() {
    let ls = lines(b"one\ntwo\n\nend");
    assert_eq!(
        ls,
        vec![
            Line(1, b"one".to_vec()),
            Line(2, b"two".to_vec()),
            Line(3, b"".to_vec()),
            Line(4, b"end".to_vec()),
        ]
    );
    assert_eq!(lines(b""), vec![Line(1, Vec::new())]);
    assert_eq!(lines(b"a\n"), vec![Line(1, b"a".to_vec()), Line(2, Vec::new())]);
}

#[test]
fn edit_script_rebuilds_both_sides() {
    let a = lines(b"p\nq\nr\n");
    let b = lines(b"q\nr\ns\n");
    let edits = Myers::from_lines(&a, &b).compare();
    let old: Vec<&Line> = edits.iter().filter_map(|e| e.a.as_ref()).collect();
    let new: Vec<&Line> = edits.iter().filter_map(|e| e.b.as_ref()).collect();
    assert_eq!(old, a.iter().collect::<Vec<_>>());
    assert_eq!(new, b.iter().collect::<Vec<_>>());
    assert!(edits.iter().any(|e| e.action == Action::Delete));
    assert!(edits.iter().any(|e| e.action == Action::Add));
}
