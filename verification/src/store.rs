//! What is stored of the commits.

use crate::id_index::IdIndex;
use crate::matchers::{Matcher, RepoPath};
use crate::object_id;
use crate::object_id::{CommitId, ObjectId};
use vstd::prelude::*;

verus! {

/// A time, in milliseconds since the epoch.
#[derive(Debug, Clone, Copy, PartialEq, Eq, PartialOrd, Ord, Hash, Structural)]
pub struct MillisSinceEpoch(pub i64);

/// A time, and the offset in minutes of the time zone it was taken in.
#[derive(Debug, Clone, Copy, PartialEq, Eq, Structural)]
pub struct Timestamp {
    pub timestamp: MillisSinceEpoch,
    pub tz_offset: i32,
}

/// Who did something, and when.
#[derive(Debug)]
pub struct Signature {
    pub name: String,
    pub email: String,
    pub timestamp: Timestamp,
}

/// What stands at a path of a tree, in its encoded form.
#[derive(Debug)]
pub struct TreeEntry {
    pub path: RepoPath,
    pub value: Vec<u8>,
}

/// The files of a commit.
#[derive(Debug)]
pub struct Tree {
    pub entries: Vec<TreeEntry>,
}

/// A commit.
#[derive(Debug)]
pub struct Commit {
    pub description: String,
    pub author: Signature,
    pub committer: Signature,
    /// The merged trees of the parents. Whoever stores the commit merges them.
    pub parent_tree: Tree,
    pub tree: Tree,
}

/// The value of the first entry with the path.
pub open spec fn first_value_at(
    entries: Seq<TreeEntry>,
    path: Seq<Seq<char>>,
) -> Option<Seq<u8>>
    decreases entries.len(),
{
    if entries.len() == 0 {
        None
    } else if entries[0].path@ == path {
        Some(entries[0].value@)
    } else {
        first_value_at(entries.skip(1), path)
    }
}

impl Tree {
    /// What stands at the path.
    pub open spec fn value_at(&self, path: Seq<Seq<char>>) -> Option<Seq<u8>> {
        first_value_at(self.entries@, path)
    }

    /// What stands at the path.
    pub fn path_value(&self, path: &RepoPath) -> (value: Option<&Vec<u8>>)
        ensures
            value matches Some(value) ==> self.value_at(path@) == Some(value@),
            value is None ==> self.value_at(path@) is None,
    {
        assert(self.entries@.skip(0) =~= self.entries@);
        for i in 0..self.entries.len()
            invariant
                self.value_at(path@) == first_value_at(self.entries@.skip(i as int), path@),
        {
            let ghost rest = self.entries@.skip(i as int);
            assert(rest.skip(1) =~= self.entries@.skip(i + 1));
            if self.entries[i].path.same_as(path) {
                return Some(&self.entries[i].value);
            }
        }
        None
    }

    /// Whether the trees differ at a path that the matcher picks.
    pub open spec fn differs_from(&self, other: &Tree, matcher: &Matcher) -> bool {
        exists|path: Seq<Seq<char>>|
            matcher.accepts(path) && #[trigger] self.value_at(path) != other.value_at(path)
    }

    /// Whether the trees differ at a path of this tree that the matcher picks.
    fn has_diff_at_own_path(&self, other: &Tree, matcher: &Matcher) -> (differs: bool)
        ensures
            differs ==> self.differs_from(other, matcher),
            !differs ==> forall|path: Seq<Seq<char>>|
                matcher.accepts(path) && #[trigger] self.value_at(path) is Some
                    ==> self.value_at(path) == other.value_at(path),
    {
        for i in 0..self.entries.len()
            invariant
                forall|j: int|
                    0 <= j < i && matcher.accepts((#[trigger] self.entries@[j]).path@)
                        ==> self.value_at(self.entries@[j].path@) == other.value_at(
                        self.entries@[j].path@,
                    ),
        {
            let path = &self.entries[i].path;
            if matcher.matches(path) && !same_value(self.path_value(path), other.path_value(path)) {
                assert(self.value_at(path@) != other.value_at(path@));
                return true;
            }
        }
        assert forall|path: Seq<Seq<char>>|
            matcher.accepts(path) && #[trigger] self.value_at(
                path,
            ) is Some implies self.value_at(path) == other.value_at(path) by {
            let i = lemma_value_at_some_entry(self.entries@, path);
            assert(matcher.accepts(self.entries@[i].path@));
        }
        false
    }

    /// Whether the trees differ at a path that the matcher picks.
    pub fn has_diff(&self, other: &Tree, matcher: &Matcher) -> (differs: bool)
        ensures
            differs == self.differs_from(other, matcher),
    {
        if self.has_diff_at_own_path(other, matcher) {
            return true;
        }
        let differs = other.has_diff_at_own_path(self, matcher);
        proof {
            if other.differs_from(self, matcher) {
                let path = choose|path: Seq<Seq<char>>|
                    matcher.accepts(path) && #[trigger] other.value_at(path) != self.value_at(path);
                assert(self.value_at(path) != other.value_at(path));
            }
            if !differs && self.differs_from(other, matcher) {
                let path = choose|path: Seq<Seq<char>>|
                    matcher.accepts(path) && #[trigger] self.value_at(path) != other.value_at(path);
                assert(self.value_at(path) is Some || other.value_at(path) is Some);
            }
        }
        differs
    }
}

proof fn lemma_value_at_some_entry(entries: Seq<TreeEntry>, path: Seq<Seq<char>>) -> (i: int)
    requires
        first_value_at(entries, path) is Some,
    ensures
        0 <= i < entries.len(),
        entries[i].path@ == path,
    decreases entries.len(),
{
    if entries[0].path@ == path {
        0
    } else {
        lemma_value_at_some_entry(entries.skip(1), path) + 1
    }
}

/// Whether both values are the same, or both are missing.
fn same_value(first: Option<&Vec<u8>>, second: Option<&Vec<u8>>) -> (same: bool)
    ensures
        same == match (first, second) {
            (Some(first), Some(second)) => first@ == second@,
            (None, None) => true,
            _ => false,
        },
{
    match (first, second) {
        (Some(first), Some(second)) => object_id::bytes_eq(first.as_slice(), second.as_slice()),
        (None, None) => true,
        _ => false,
    }
}

/// The place of the first commit with the identifier.
pub open spec fn is_first_with_id(
    commits: Seq<(CommitId, Commit)>,
    id: Seq<u8>,
    i: int,
) -> bool {
    &&& 0 <= i < commits.len()
    &&& commits[i].0@ == id
    &&& forall|j: int| 0 <= j < i ==> (#[trigger] commits[j]).0@ != id
}

/// The commits of a repository, by identifier.
#[derive(Debug)]
pub struct Store {
    commits: IdIndex<CommitId, Commit>,
}

impl Store {
    /// Whether a commit with the identifier is stored.
    pub closed spec fn has_commit(&self, id: Seq<u8>) -> bool {
        exists|i: int| is_first_with_id(self.commits@, id, i)
    }

    /// The commit with the identifier.
    pub closed spec fn commit(&self, id: Seq<u8>) -> Commit {
        self.commits@[choose|i: int| is_first_with_id(self.commits@, id, i)].1
    }

    /// The store of the given commits.
    pub fn new(commits: Vec<(CommitId, Commit)>) -> (store: Self)
        ensures
            forall|id: Seq<u8>| #[trigger]
                store.has_commit(id) <==> exists|i: int|
                    0 <= i < commits@.len() && (#[trigger] commits@[i]).0@ == id,
            forall|id: Seq<u8>| #[trigger]
                store.has_commit(id) ==> exists|i: int|
                    0 <= i < commits@.len() && (#[trigger] commits@[i]).0@ == id && commits@[i].1
                        == store.commit(id),
    {
        let ghost given = commits@;
        let store = Store { commits: IdIndex::from_vec(commits) };
        proof {
            broadcast use vstd::seq_lib::group_to_multiset_ensures;

            let held = store.commits@;
            assert forall|entry: (CommitId, Commit)|
                held.contains(entry) <==> #[trigger] given.contains(entry) by {
                assert(held.to_multiset().count(entry) == given.to_multiset().count(entry));
            }
            assert forall|id: Seq<u8>| #[trigger]
                store.has_commit(id) <==> exists|i: int|
                    0 <= i < given.len() && (#[trigger] given[i]).0@ == id by {
                if exists|i: int| 0 <= i < given.len() && (#[trigger] given[i]).0@ == id {
                    let i = choose|i: int| 0 <= i < given.len() && (#[trigger] given[i]).0@ == id;
                    assert(given.contains(given[i]));
                    let j = choose|j: int| 0 <= j < held.len() && held[j] == given[i];
                    lemma_some_is_first(held, id, j);
                }
                if store.has_commit(id) {
                    let j = choose|j: int| is_first_with_id(held, id, j);
                    assert(held.contains(held[j]));
                    assert(given.contains(held[j]));
                    let i = choose|i: int| 0 <= i < given.len() && given[i] == held[j];
                    assert(given[i].0@ == id);
                }
            }
            assert forall|id: Seq<u8>| #[trigger] store.has_commit(id) implies exists|i: int|
                0 <= i < given.len() && (#[trigger] given[i]).0@ == id && given[i].1
                    == store.commit(id) by {
                let j = choose|j: int| is_first_with_id(held, id, j);
                assert(held.contains(held[j]));
                assert(given.contains(held[j]));
                let i = choose|i: int| 0 <= i < given.len() && given[i] == held[j];
                assert(given[i].0@ == id && given[i].1 == store.commit(id));
            }
        }
        store
    }

    /// The commit with the identifier.
    pub fn get_commit(&self, id: &CommitId) -> (commit: Option<&Commit>)
        ensures
            commit is Some <==> self.has_commit(id@),
            commit matches Some(commit) ==> *commit == self.commit(id@),
    {
        let commit = self.commits.first_value(id);
        proof {
            let commits = self.commits@;
            if let Some(found) = commit {
                let i = choose|i: int|
                    {
                        &&& 0 <= i < commits.len()
                        &&& (#[trigger] commits[i]).0.bytes() == id.bytes()
                        &&& commits[i].1 == *found
                        &&& forall|j: int|
                            0 <= j < i ==> (#[trigger] commits[j]).0.bytes() != id.bytes()
                    };
                assert forall|j: int| 0 <= j < i implies (#[trigger] commits[j]).0@ != id@ by {
                    assert(commits[j].0.bytes() != id.bytes());
                }
                assert(is_first_with_id(commits, id@, i));
                let k = choose|k: int| is_first_with_id(commits, id@, k);
                assert(k == i);
            } else {
                assert forall|i: int| !is_first_with_id(commits, id@, i) by {
                    if 0 <= i < commits.len() {
                        assert(commits[i].0.bytes() != id.bytes());
                    }
                }
            }
        }
        commit
    }
}

proof fn lemma_some_is_first(commits: Seq<(CommitId, Commit)>, id: Seq<u8>, i: int)
    requires
        0 <= i < commits.len(),
        commits[i].0@ == id,
    ensures
        exists|j: int| is_first_with_id(commits, id, j),
    decreases i,
{
    if exists|j: int| 0 <= j < i && (#[trigger] commits[j]).0@ == id {
        let j = choose|j: int| 0 <= j < i && (#[trigger] commits[j]).0@ == id;
        lemma_some_is_first(commits, id, j);
    } else {
        assert(is_first_with_id(commits, id, i));
    }
}

} // verus!
