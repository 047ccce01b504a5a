use git_rs::commit::Commit;
use git_rs::merge_base::{find_best_common_ancestors, find_merge_bases, MergeBaseSearch};
use git_rs::object_db::{Object, ObjectMap};
use git_rs::object_id::ObjectId;
use git_rs::signature::{AuthorInfo, CommitterInfo, Signature};
use git_rs::time::Time;


fn get_author_info() -> AuthorInfo {
    let sign = Signature::build("user", "example@domain.com", Time::new(1771253662, 10800)).unwrap();
    AuthorInfo(sign)
}

fn get_commiter_info() -> CommitterInfo {
    let sign = Signature::build("committer", "commiter@email", Time::new(1771253662, 10800)).unwrap();
    CommitterInfo(sign)
}

fn get_commit_with_parents(parents: Vec<ObjectId>) -> Commit {
    Commit::new(
        ObjectId::zero(),
        parents,
        get_author_info(),
        get_commiter_info(),
        String::new(),
    )
}

fn store(ids: &[ObjectId], commits: &[Commit]) -> ObjectMap {
    let mut odb = ObjectMap::new();
    for (id, commit) in ids.iter().zip(commits.iter()) {
        odb.insert(*id, Object::Commit(commit.clone()));
    }
    odb
}

#[test]
fn one_base() {
    let id = [
        "a123456789012345678901234567890123456789",
        "b123456789012345678901234567890123456789",
        "c123456789012345678901234567890123456789",
    ]
    .map(ObjectId::from_str)
    .map(Result::unwrap);

    let commits = [
        get_commit_with_parents(vec![]),
        get_commit_with_parents(vec![id[0]]),
        get_commit_with_parents(vec![id[0]]),
    ];

    let odb = store(&id, &commits);
    let actual = find_best_common_ancestors(&odb, id[1], &id[2..]).unwrap();
    let expected = vec![(commits[0].clone(), id[0])];
    assert_eq!(actual, expected);
}

#[test]
fn criss_cross() {
    let id = [
        "a123456789012345678901234567890123456789",
        "b123456789012345678901234567890123456789",
        "c123456789012345678901234567890123456789",
        "d123456789012345678901234567890123456789",
        "e123456789012345678901234567890123456789",
    ]
    .map(ObjectId::from_str)
    .map(Result::unwrap);

    let commits = [
        get_commit_with_parents(vec![]),
        get_commit_with_parents(vec![id[0]]),
        get_commit_with_parents(vec![id[0]]),
        get_commit_with_parents(vec![id[1], id[2]]),
        get_commit_with_parents(vec![id[1], id[2]]),
    ];

    let odb = store(&id, &commits);
    let actual = find_best_common_ancestors(&odb, id[3], &id[4..]).unwrap();
    let expected = vec![(commits[1].clone(), id[1]), (commits[2].clone(), id[2])];
    assert_eq!(actual, expected);
}

#[test]
fn three_commits() {
    let id = [
        "a123456789012345678901234567890123456789",
        "b123456789012345678901234567890123456789",
        "c123456789012345678901234567890123456789",
        "d123456789012345678901234567890123456789",
        "e123456789012345678901234567890123456789",
    ]
    .map(ObjectId::from_str)
    .map(Result::unwrap);

    let commits = [
        get_commit_with_parents(vec![]),
        get_commit_with_parents(vec![id[0]]),
        get_commit_with_parents(vec![id[1]]),
        get_commit_with_parents(vec![id[1]]),
        get_commit_with_parents(vec![id[0]]),
    ];

    let odb = store(&id, &commits);
    let actual = find_best_common_ancestors(&odb, id[2], &id[3..]).unwrap();
    let expected = vec![(commits[1].clone(), id[1])];
    assert_eq!(actual, expected);
}

#[test]
fn merge_bases_of_nothing_and_of_itself() {
    let id = ObjectId::from_str("a123456789012345678901234567890123456789").unwrap();
    let commit = get_commit_with_parents(vec![]);
    let odb = store(&[id], &[commit.clone()]);
    assert!(find_merge_bases(&odb, id, &[]).unwrap().is_empty());
    assert_eq!(find_merge_bases(&odb, id, &[id, id]).unwrap(), vec![(commit, id)]);
}

#[test]
fn merge_bases_latest_first() {
    let id = [
        "a123456789012345678901234567890123456789",
        "b123456789012345678901234567890123456789",
        "c123456789012345678901234567890123456789",
        "d123456789012345678901234567890123456789",
        "e123456789012345678901234567890123456789",
    ]
    .map(ObjectId::from_str)
    .map(Result::unwrap);
    let at = |t: u64, parents: Vec<ObjectId>| {
        let sig = Signature::build("c", "c@x", Time::new(t, 0)).unwrap();
        Commit::new(ObjectId::zero(), parents, AuthorInfo(sig.clone()), CommitterInfo(sig), String::new())
    };
    let commits = [
        at(1, vec![]),
        at(2, vec![id[0]]),
        at(3, vec![id[0]]),
        at(4, vec![id[1], id[2]]),
        at(5, vec![id[1], id[2]]),
    ];
    let odb = store(&id, &commits);
    let actual = find_merge_bases(&odb, id[3], &id[4..]).unwrap();
    assert_eq!(actual, vec![(commits[2].clone(), id[2]), (commits[1].clone(), id[1])]);
}

#[test]
fn search_fed_by_hand_asks_for_parents() {
    let id = [
        "a123456789012345678901234567890123456789",
        "b123456789012345678901234567890123456789",
        "c123456789012345678901234567890123456789",
    ]
    .map(ObjectId::from_str)
    .map(Result::unwrap);
    let commits = [
        get_commit_with_parents(vec![]),
        get_commit_with_parents(vec![id[0]]),
        get_commit_with_parents(vec![id[0]]),
    ];

    let mut search = MergeBaseSearch::new(id[1], commits[1].clone());
    search.add_other(id[2], commits[2].clone());
    let mut asked = Vec::new();
    while let Some(parent) = search.next_parent().unwrap() {
        asked.push(parent);
        let k = id.iter().position(|x| *x == parent).unwrap();
        search.feed(commits[k].clone());
    }
    assert_eq!(asked, vec![id[0], id[0]]);
    assert_eq!(search.finish(), vec![(commits[0].clone(), id[0])]);
}
