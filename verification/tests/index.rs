//! The index of commits, walks over it, and what is stored.

use revset_engine::index::{CompositeIndex, IndexPosition};
use revset_engine::matchers::{EverythingMatcher, Matcher, PrefixMatcher, RepoPath};
use revset_engine::object_id::{ChangeId, CommitId};
use revset_engine::sort::sort;
use revset_engine::store::{
    Commit, MillisSinceEpoch, Signature, Store, Timestamp, Tree, TreeEntry,
};
use revset_engine::walk::RevWalk;

fn id(i: u8) -> CommitId {
    CommitId::new(vec![i])
}

/// 0 is the parent of 1 and 2, and these are the parents of 3; 4 has no parents.
fn diamond() -> CompositeIndex {
    let mut index = CompositeIndex::full(1, 1);
    let parents: [&[u8]; 5] = [&[], &[9], &[9], &[7, 8], &[]];
    for (i, parents) in parents.iter().enumerate() {
        let parents: Vec<CommitId> = parents.iter().map(|p| id(*p)).collect();
        index.add_commit_data(id(9 - i as u8), ChangeId::new(vec![i as u8]), &parents);
    }
    index
}

fn walked(walk: &RevWalk<'_>) -> Vec<u32> {
    let mut iter = walk.iter();
    let mut positions = vec![];
    while let Some(entry) = iter.next() {
        positions.push(entry.position().0);
    }
    positions
}

#[test]
fn commits_are_found() {
    let index = diamond();
    assert_eq!(index.num_commits(), 5);
    assert_eq!(index.commit_id_to_pos(&id(9)), Some(IndexPosition(0)));
    assert_eq!(index.commit_id_to_pos(&id(6)), Some(IndexPosition(3)));
    assert_eq!(index.commit_id_to_pos(&id(1)), None);
    let entry = index.entry_by_id(&id(6)).unwrap();
    assert_eq!(entry, index.entry_by_pos(IndexPosition(3)));
    assert_eq!(entry.commit_id(), id(6));
    assert_eq!(entry.change_id(), ChangeId::new(vec![3]));
    assert_eq!(entry.num_parents(), 2);
    assert_eq!(entry.parent_positions(), &vec![IndexPosition(2), IndexPosition(1)]);
    assert!(index.entry_by_id(&id(1)).is_none());
}

#[test]
fn commit_is_added_once() {
    let mut index = diamond();
    index.add_commit_data(id(6), ChangeId::new(vec![77]), &[]);
    assert_eq!(index.num_commits(), 5);
    let entry = index.entry_by_id(&id(6)).unwrap();
    assert_eq!(entry.change_id(), ChangeId::new(vec![3]));
}

#[test]
fn walks_go_down() {
    let index = diamond();
    assert_eq!(walked(&index.walk_revs(&[id(6)], &[])), vec![3, 2, 1, 0]);
    assert_eq!(walked(&index.walk_revs(&[id(6)], &[id(8)])), vec![3, 2]);
    assert_eq!(walked(&index.walk_revs(&[id(8), id(5)], &[])), vec![4, 1, 0]);
    assert_eq!(walked(&index.walk_revs(&[], &[])), vec![]);
    let walk = index.walk_revs(&[id(6)], &[]).filter_by_generation(1..2);
    assert_eq!(walked(&walk), vec![2, 1]);
    let walk = index.walk_revs(&[id(6)], &[id(8)]).filter_by_generation(1..9);
    assert_eq!(walked(&walk), vec![2]);
}

#[test]
fn heads_of_commits() {
    let index = diamond();
    assert_eq!(index.heads(&[id(9), id(7), id(8)]), vec![id(8), id(7)]);
    assert_eq!(index.heads(&[id(9), id(5), id(6)]), vec![id(6), id(5)]);
    assert_eq!(index.heads(&[]), vec![]);
}

#[test]
fn pairs_are_sorted_by_identifier() {
    let sorted = sort(vec![(id(3), 'a'), (id(1), 'b'), (id(2), 'c'), (id(0), 'd')]);
    let letters: Vec<char> = sorted.iter().map(|(_, letter)| *letter).collect();
    assert_eq!(letters, vec!['d', 'b', 'c', 'a']);
}

fn path(text: &str) -> RepoPath {
    RepoPath::from_components(text.split('/').map(|name| name.to_string()).collect())
}

#[test]
fn matchers_pick_paths() {
    let everything = Matcher::Everything(EverythingMatcher);
    assert!(everything.matches(&path("a/b")));
    let some = Matcher::Prefix(PrefixMatcher::new(&vec![path("a/b"), path("c")]));
    assert!(some.matches(&path("a/b")));
    assert!(some.matches(&path("a/b/d")));
    assert!(some.matches(&path("c/d")));
    assert!(!some.matches(&path("a")));
    assert!(!some.matches(&path("a/bc")));
    let nothing = Matcher::Prefix(PrefixMatcher::new(&vec![]));
    assert!(!nothing.matches(&path("a")));
}

fn tree(files: &[(&str, u8)]) -> Tree {
    let entries = files
        .iter()
        .map(|(file, value)| TreeEntry {
            path: path(file),
            value: vec![*value],
        })
        .collect();
    Tree { entries }
}

#[test]
fn trees_differ() {
    let everything = Matcher::Everything(EverythingMatcher);
    let old = tree(&[("a", 1), ("b/c", 2)]);
    assert!(!old.has_diff(&tree(&[("b/c", 2), ("a", 1)]), &everything));
    assert!(old.has_diff(&tree(&[("a", 1)]), &everything));
    assert!(old.has_diff(&tree(&[("a", 1), ("b/c", 3)]), &everything));
    assert!(old.has_diff(&tree(&[("a", 1), ("b/c", 2), ("d", 0)]), &everything));
    let some = Matcher::Prefix(PrefixMatcher::new(&vec![path("a")]));
    assert!(!old.has_diff(&tree(&[("a", 1), ("b/c", 3)]), &some));
    assert!(old.has_diff(&tree(&[("a", 2), ("b/c", 2)]), &some));
    assert_eq!(old.path_value(&path("b/c")), Some(&vec![2]));
    assert_eq!(old.path_value(&path("b")), None);
}

#[test]
fn commits_are_stored_by_identifier() {
    let signature = |name: &str| Signature {
        name: name.to_string(),
        email: String::new(),
        timestamp: Timestamp {
            timestamp: MillisSinceEpoch(0),
            tz_offset: 0,
        },
    };
    let commit = |description: &str| Commit {
        description: description.to_string(),
        author: signature("a"),
        committer: signature("c"),
        parent_tree: tree(&[]),
        tree: tree(&[]),
    };
    let store = Store::new(vec![(id(5), commit("five")), (id(2), commit("two"))]);
    assert_eq!(store.get_commit(&id(2)).unwrap().description, "two");
    assert_eq!(store.get_commit(&id(5)).unwrap().description, "five");
    assert!(store.get_commit(&id(3)).is_none());
}
