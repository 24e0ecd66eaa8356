//! Evaluation of expressions over a small repository.
//!
//! ```text
//!   6
//!   |
//!   4    5 (hidden)
//!   |\  /
//!   3 2
//!   |/
//!   1
//!   |
//!   0
//! ```

use revset_engine::engine::{present, EvaluatedRevset, EvaluationContext};
use revset_engine::expression::{
    RevsetError, RevsetExpression, RevsetFilterPredicate, GENERATION_RANGE_FULL_END,
    GENERATION_RANGE_FULL_START,
};
use revset_engine::hex_prefix::{HexPrefix, PrefixResolution};
use revset_engine::index::{CompositeIndex, IndexEntry};
use revset_engine::matchers::RepoPath;
use revset_engine::object_id::{ChangeId, CommitId};
use revset_engine::revset::{EagerRevset, InternalRevset};
use revset_engine::revset_impl::{evaluate, RevsetImpl};
use revset_engine::store::{
    Commit, MillisSinceEpoch, Signature, Store, Timestamp, Tree, TreeEntry,
};
use std::ops::Range;
use std::rc::Rc;

struct Repo {
    ids: Vec<CommitId>,
    index: CompositeIndex,
    store: Store,
}

fn signature(name: &str, email: &str, millis: i64) -> Signature {
    Signature {
        name: name.to_string(),
        email: email.to_string(),
        timestamp: Timestamp {
            timestamp: MillisSinceEpoch(millis),
            tz_offset: 60,
        },
    }
}

fn path(text: &str) -> RepoPath {
    RepoPath::from_components(text.split('/').map(|name| name.to_string()).collect())
}

fn tree(files: &[(&str, &str)]) -> Tree {
    let entries = files
        .iter()
        .map(|(file, value)| TreeEntry {
            path: path(file),
            value: value.as_bytes().to_vec(),
        })
        .collect();
    Tree { entries }
}

fn repo() -> Repo {
    let parents: [&[usize]; 7] = [&[], &[0], &[1], &[1], &[2, 3], &[2], &[4]];
    // Commits 3 and 4 are versions of the same change.
    let changes = ["00aa", "1234", "12ff", "abcd", "abcd", "dead", "f000"];
    let millis: [i64; 7] = [0, 30, 10, 20, 10, 99, 5];
    let names = ["root", "ann", "bob", "ann", "cy", "bob", "dee"];
    let descriptions = ["", "add a", "add b", "edit a", "merge", "drop b", "nothing"];
    let before: [&[(&str, &str)]; 7] = [
        &[],
        &[],
        &[("src/a", "1")],
        &[("src/a", "1")],
        &[("src/a", "2"), ("b", "1")],
        &[("src/a", "1"), ("b", "1")],
        &[("src/a", "2"), ("b", "1")],
    ];
    let after: [&[(&str, &str)]; 7] = [
        &[],
        &[("src/a", "1")],
        &[("src/a", "1"), ("b", "1")],
        &[("src/a", "2")],
        &[("b", "1"), ("src/a", "2")],
        &[("src/a", "1")],
        &[("src/a", "2"), ("b", "1")],
    ];
    let mut ids: Vec<CommitId> = vec![];
    let mut index = CompositeIndex::full(3, 2);
    let mut commits = vec![];
    for i in 0..7 {
        // Identifiers do not sort as the positions do.
        let id = CommitId::new(vec![(7 - i as u8) * 16, i as u8, 0]);
        let parent_ids: Vec<CommitId> = parents[i].iter().map(|p| ids[*p].clone()).collect();
        index.add_commit_data(id.clone(), ChangeId::from_hex(changes[i]), &parent_ids);
        let email = format!("{}@example.com", names[i]);
        commits.push((
            id.clone(),
            Commit {
                description: descriptions[i].to_string(),
                author: signature(names[i], &email, 1000),
                committer: signature("committer", &format!("{i}@host"), millis[i]),
                parent_tree: tree(before[i]),
                tree: tree(after[i]),
            },
        ));
        ids.push(id);
    }
    Repo {
        ids,
        index,
        store: Store::new(commits),
    }
}

impl Repo {
    fn evaluate(&self, expression: &RevsetExpression) -> RevsetImpl<'_> {
        evaluate(expression, &self.store, &self.index, &self.ids[6..]).unwrap()
    }

    /// The positions of the commits, in the order of iteration.
    fn positions(&self, expression: &RevsetExpression) -> Vec<usize> {
        let set = self.evaluate(expression);
        let mut iter = set.iter();
        let mut positions = vec![];
        while let Some(id) = iter.next() {
            positions.push(self.ids.iter().position(|other| *other == id).unwrap());
        }
        assert!(iter.next().is_none());
        assert_eq!(set.is_empty(), positions.is_empty());
        positions
    }

    fn commits(&self, positions: &[usize]) -> Rc<RevsetExpression> {
        let ids = positions.iter().map(|p| self.ids[*p].clone()).collect();
        Rc::new(RevsetExpression::Commits(ids))
    }
}

fn all() -> Rc<RevsetExpression> {
    Rc::new(RevsetExpression::All)
}

fn at(heads: &Rc<RevsetExpression>, generation: Range<u64>) -> Rc<RevsetExpression> {
    Rc::new(RevsetExpression::Ancestors {
        heads: heads.clone(),
        generation,
    })
}

fn filter(predicate: RevsetFilterPredicate) -> Rc<RevsetExpression> {
    Rc::new(RevsetExpression::Filter(predicate))
}

const FULL: Range<u64> = GENERATION_RANGE_FULL_START..GENERATION_RANGE_FULL_END;

#[test]
fn none_and_all() {
    let repo = repo();
    assert_eq!(repo.positions(&RevsetExpression::none()), vec![]);
    assert_eq!(repo.positions(&all()), vec![6, 4, 3, 2, 1, 0]);
    assert_eq!(repo.positions(&RevsetExpression::visible_heads()), vec![6]);
    assert_eq!(
        repo.positions(&RevsetExpression::visible_heads().ancestors()),
        repo.positions(&all())
    );
}

#[test]
fn commits_are_sorted_and_listed_once() {
    let repo = repo();
    assert_eq!(repo.positions(&repo.commits(&[])), vec![]);
    assert_eq!(
        repo.positions(&repo.commits(&[1, 5, 1, 3, 5])),
        vec![5, 3, 1]
    );
}

#[test]
fn children_are_visible() {
    let repo = repo();
    assert_eq!(
        repo.positions(&RevsetExpression::Children(repo.commits(&[1]))),
        vec![3, 2]
    );
    // The other child of 2 is hidden.
    assert_eq!(
        repo.positions(&RevsetExpression::Children(repo.commits(&[2]))),
        vec![4]
    );
    assert_eq!(
        repo.positions(&RevsetExpression::Children(repo.commits(&[0, 1, 4]))),
        vec![6, 3, 2, 1]
    );
    assert_eq!(
        repo.positions(&RevsetExpression::Children(repo.commits(&[6, 5]))),
        vec![]
    );
}

#[test]
fn ancestors_at_distances() {
    let repo = repo();
    let merge = repo.commits(&[4]);
    assert_eq!(repo.positions(&merge.ancestors()), vec![4, 3, 2, 1, 0]);
    assert_eq!(repo.positions(&at(&merge, 0..1)), vec![4]);
    assert_eq!(repo.positions(&at(&merge, 1..2)), vec![3, 2]);
    assert_eq!(repo.positions(&at(&merge, 1..3)), vec![3, 2, 1]);
    assert_eq!(repo.positions(&at(&merge, 2..2)), vec![]);
    assert_eq!(repo.positions(&at(&merge, 3..u64::MAX)), vec![0]);
    assert_eq!(repo.positions(&at(&merge, 4..9)), vec![]);
    assert_eq!(repo.positions(&at(&repo.commits(&[]), FULL)), vec![]);
}

#[test]
fn ranges_leave_ancestors_of_roots_out() {
    let repo = repo();
    let range = |roots: &[usize], heads: &[usize], generation: Range<u64>| {
        repo.positions(&RevsetExpression::Range {
            roots: repo.commits(roots),
            heads: repo.commits(heads),
            generation,
        })
    };
    assert_eq!(range(&[2], &[6], FULL), vec![6, 4, 3]);
    assert_eq!(range(&[], &[5], FULL), vec![5, 2, 1, 0]);
    assert_eq!(range(&[6], &[5], FULL), vec![5]);
    assert_eq!(range(&[6], &[2], FULL), vec![]);
    assert_eq!(range(&[3], &[6], 0..3), vec![6, 4, 2]);
    assert_eq!(range(&[3], &[6], 1..2), vec![4]);
}

#[test]
fn range_is_difference_of_ancestors() {
    let repo = repo();
    for (roots, heads) in [(vec![2], vec![6]), (vec![3, 5], vec![4, 5]), (vec![], vec![1])] {
        let roots = repo.commits(&roots);
        let heads = repo.commits(&heads);
        assert_eq!(
            repo.positions(&RevsetExpression::Range {
                roots: roots.clone(),
                heads: heads.clone(),
                generation: 0..2,
            }),
            repo.positions(&RevsetExpression::Difference(
                at(&heads, 0..2),
                roots.ancestors(),
            )),
        );
    }
}

#[test]
fn dag_ranges() {
    let repo = repo();
    let range = |roots: &[usize], heads: &[usize]| {
        repo.positions(&RevsetExpression::DagRange {
            roots: repo.commits(roots),
            heads: repo.commits(heads),
        })
    };
    assert_eq!(range(&[1], &[4]), vec![4, 3, 2, 1]);
    assert_eq!(range(&[2], &[6]), vec![6, 4, 2]);
    assert_eq!(range(&[3], &[5]), vec![]);
    assert_eq!(range(&[3], &[3]), vec![3]);
    assert_eq!(range(&[2, 0], &[5]), vec![5, 2, 1, 0]);
    assert_eq!(repo.positions(&repo.commits(&[2]).descendants()), vec![6, 4, 2]);
    assert_eq!(repo.positions(&repo.commits(&[5]).descendants()), vec![]);
}

#[test]
fn connected_sets_stay_connected() {
    let repo = repo();
    let connected = repo.commits(&[6, 2, 0]).connected();
    assert_eq!(repo.positions(&connected), vec![6, 4, 3, 2, 1, 0]);
    assert_eq!(repo.positions(&connected.connected()), vec![6, 4, 3, 2, 1, 0]);
    let apart = repo.commits(&[3, 5]).connected();
    assert_eq!(repo.positions(&apart), vec![5, 3]);
}

#[test]
fn heads_and_roots() {
    let repo = repo();
    let set = repo.commits(&[1, 2, 3, 5]);
    let heads = Rc::new(RevsetExpression::Heads(set.clone()));
    let roots = Rc::new(RevsetExpression::Roots(set.clone()));
    assert_eq!(repo.positions(&heads), vec![5, 3]);
    assert_eq!(repo.positions(&roots), vec![1]);
    assert_eq!(repo.positions(&heads.ancestors()), repo.positions(&set.ancestors()));
    assert_eq!(
        repo.positions(&RevsetExpression::Heads(heads)),
        vec![5, 3]
    );
    assert_eq!(repo.positions(&RevsetExpression::Roots(roots)), vec![1]);
    // 6 descends from 2, though nothing in between is in the set.
    let gap = repo.commits(&[2, 3, 6]);
    assert_eq!(repo.positions(&RevsetExpression::Roots(gap.clone())), vec![3, 2]);
    assert_eq!(repo.positions(&RevsetExpression::Heads(gap)), vec![6]);
    assert_eq!(
        repo.positions(&RevsetExpression::Heads(RevsetExpression::none())),
        vec![]
    );
    assert_eq!(
        repo.positions(&RevsetExpression::Roots(RevsetExpression::none())),
        vec![]
    );
}

#[test]
fn latest_commits_by_time() {
    let repo = repo();
    let latest = |count: usize, positions: &[usize]| {
        repo.positions(&RevsetExpression::Latest {
            candidates: repo.commits(positions),
            count,
        })
    };
    let everything = [0, 1, 2, 3, 4, 5, 6];
    assert_eq!(latest(0, &everything), vec![]);
    assert_eq!(latest(1, &everything), vec![5]);
    assert_eq!(latest(3, &everything), vec![5, 3, 1]);
    // 2 and 4 have the same time: the higher position is later.
    assert_eq!(latest(4, &everything), vec![5, 4, 3, 1]);
    assert_eq!(latest(1, &[2, 4]), vec![4]);
    assert_eq!(latest(7, &everything), vec![6, 5, 4, 3, 2, 1, 0]);
    assert_eq!(latest(usize::MAX, &[0, 6]), vec![6, 0]);
    assert_eq!(latest(2, &[]), vec![]);
}

#[test]
fn more_latest_commits_hold_fewer() {
    let repo = repo();
    let latest = |count: usize| {
        repo.positions(&RevsetExpression::Latest {
            candidates: all(),
            count,
        })
    };
    for count in 0..8 {
        let fewer = latest(count);
        let more = latest(count + 1);
        assert_eq!(fewer.len(), count.min(6));
        assert!(fewer.iter().all(|p| more.contains(p)));
    }
}

#[test]
fn filter_by_parent_count() {
    let repo = repo();
    let parents = |range: Range<u32>| repo.positions(&filter(RevsetFilterPredicate::ParentCount(range)));
    assert_eq!(parents(0..1), vec![0]);
    assert_eq!(parents(2..u32::MAX), vec![4]);
    assert_eq!(parents(1..2), vec![6, 3, 2, 1]);
    assert_eq!(parents(0..3), vec![6, 4, 3, 2, 1, 0]);
    assert_eq!(parents(2..1), vec![]);
}

#[test]
fn filter_by_text() {
    let repo = repo();
    let description =
        |needle: &str| repo.positions(&filter(RevsetFilterPredicate::Description(needle.to_string())));
    assert_eq!(description("add"), vec![2, 1]);
    assert_eq!(description("dd b"), vec![2]);
    assert_eq!(description("Add"), vec![]);
    assert_eq!(description(""), vec![6, 4, 3, 2, 1, 0]);
    let author =
        |needle: &str| repo.positions(&filter(RevsetFilterPredicate::Author(needle.to_string())));
    assert_eq!(author("ann"), vec![3, 1]);
    assert_eq!(author("bob@"), vec![2]);
    assert_eq!(author("committer"), vec![]);
    let committer =
        |needle: &str| repo.positions(&filter(RevsetFilterPredicate::Committer(needle.to_string())));
    assert_eq!(committer("committer"), vec![6, 4, 3, 2, 1, 0]);
    assert_eq!(committer("4@host"), vec![4]);
    assert_eq!(committer("ann"), vec![]);
}

#[test]
fn filter_by_file() {
    let repo = repo();
    let file = |paths: Option<Vec<RepoPath>>| repo.positions(&filter(RevsetFilterPredicate::File(paths)));
    // The order of the entries of a tree says nothing, so 4 changes no file.
    assert_eq!(file(None), vec![3, 2, 1]);
    assert_eq!(file(Some(vec![path("src")])), vec![3, 1]);
    assert_eq!(file(Some(vec![path("src/a")])), vec![3, 1]);
    assert_eq!(file(Some(vec![path("src/a/x")])), vec![]);
    assert_eq!(file(Some(vec![path("b")])), vec![2]);
    assert_eq!(file(Some(vec![path("b"), path("src")])), vec![3, 2, 1]);
    assert_eq!(file(Some(vec![])), vec![]);
}

#[test]
fn conditions_test_hidden_commits_in_intersections() {
    let repo = repo();
    let bob = filter(RevsetFilterPredicate::Author("bob".to_string()));
    assert_eq!(repo.positions(&bob), vec![2]);
    // The candidates of a filter are the visible commits.
    let hidden = repo.commits(&[5, 2]);
    assert_eq!(
        repo.positions(&RevsetExpression::Intersection(hidden, bob)),
        vec![2]
    );
}

#[test]
fn only_what_is_asked_about_has_to_be_stored() {
    let mut repo = repo();
    let commit = |name: &str, millis: i64| Commit {
        description: String::new(),
        author: signature(name, "", 0),
        committer: signature("", "", millis),
        parent_tree: tree(&[]),
        tree: tree(&[]),
    };
    repo.store = Store::new(vec![
        (repo.ids[3].clone(), commit("ann", 8)),
        (repo.ids[2].clone(), commit("bob", 9)),
    ]);
    let stored = repo.commits(&[2, 3]);
    let ann = filter(RevsetFilterPredicate::Author("ann".to_string()));
    assert_eq!(
        repo.positions(&RevsetExpression::Intersection(stored.clone(), ann.clone())),
        vec![3]
    );
    // A set that is not gone through reads nothing.
    repo.evaluate(&ann);
    let latest = |candidates: &Rc<RevsetExpression>, count: usize| {
        repo.positions(&RevsetExpression::Latest {
            candidates: candidates.clone(),
            count,
        })
    };
    assert_eq!(latest(&stored, 1), vec![2]);
    assert_eq!(latest(&all(), 0), vec![]);
}

#[test]
fn set_operations() {
    let repo = repo();
    let a = repo.commits(&[5, 4, 2]);
    let b = repo.commits(&[4, 3, 0]);
    assert_eq!(
        repo.positions(&RevsetExpression::Union(a.clone(), b.clone())),
        vec![5, 4, 3, 2, 0]
    );
    assert_eq!(
        repo.positions(&RevsetExpression::Intersection(a.clone(), b.clone())),
        vec![4]
    );
    assert_eq!(
        repo.positions(&RevsetExpression::Difference(a.clone(), b.clone())),
        vec![5, 2]
    );
    assert_eq!(
        repo.positions(&RevsetExpression::Union(b.clone(), a.clone())),
        vec![5, 4, 3, 2, 0]
    );
    assert_eq!(
        repo.positions(&RevsetExpression::Intersection(b.clone(), a.clone())),
        vec![4]
    );
    let common = Rc::new(RevsetExpression::Intersection(a.clone(), b.clone()));
    assert_eq!(
        repo.positions(&RevsetExpression::Difference(a, common)),
        vec![5, 2]
    );
    assert_eq!(
        repo.positions(&RevsetExpression::NotIn(b)),
        vec![6, 2, 1]
    );
    assert_eq!(repo.positions(&RevsetExpression::NotIn(all())), vec![]);
}

#[test]
fn complement_of_complement_is_visible_part() {
    let repo = repo();
    let set = repo.commits(&[5, 3, 1]);
    let complement = Rc::new(RevsetExpression::NotIn(set.clone()));
    assert_eq!(
        repo.positions(&complement),
        repo.positions(&RevsetExpression::Difference(all(), set.clone()))
    );
    assert_eq!(repo.positions(&RevsetExpression::NotIn(complement)), vec![3, 1]);
    // What is hidden is not in all().
    assert_eq!(
        repo.positions(&RevsetExpression::Intersection(all(), set)),
        vec![3, 1]
    );
}

#[test]
fn marks_keep_the_set() {
    let repo = repo();
    let set = repo.commits(&[5, 3]);
    assert_eq!(
        repo.positions(&RevsetExpression::Present(set.clone())),
        vec![5, 3]
    );
    assert_eq!(repo.positions(&RevsetExpression::AsFilter(set)), vec![5, 3]);
}

#[test]
fn nested_expressions() {
    let repo = repo();
    // heads(~ann) & ancestors(2 parents)
    let ann = filter(RevsetFilterPredicate::Author("ann".to_string()));
    let not_ann = Rc::new(RevsetExpression::NotIn(ann));
    let merges = filter(RevsetFilterPredicate::ParentCount(2..u32::MAX));
    let expression = RevsetExpression::Intersection(merges.ancestors(), not_ann);
    assert_eq!(repo.positions(&expression), vec![4, 2, 0]);
    let heads = RevsetExpression::Heads(Rc::new(expression));
    assert_eq!(repo.positions(&heads), vec![4]);
}

#[test]
fn missing_sets_are_empty_if_marked() {
    let missing: Result<EvaluatedRevset<'_>, RevsetError> =
        Err(RevsetError::NoSuchRevision("x".to_string()));
    match present(missing) {
        Ok(set) => assert!(set.iter().collect_vec().is_empty()),
        Err(_) => unreachable!(),
    }
    match present(Err(RevsetError::AmbiguousIdPrefix("12".to_string()))) {
        Ok(_) => unreachable!(),
        Err(error) => assert_eq!(error, RevsetError::AmbiguousIdPrefix("12".to_string())),
    }
    match present(Err(RevsetError::StoreError("disk".to_string()))) {
        Ok(_) => unreachable!(),
        Err(error) => assert_eq!(error, RevsetError::StoreError("disk".to_string())),
    }
    let repo = repo();
    let entry = repo.index.entry_by_id(&repo.ids[1]).unwrap();
    let set = InternalRevset::Eager(EagerRevset {
        index_entries: vec![entry],
    });
    match present(Ok(set)) {
        Ok(set) => assert_eq!(set.iter().collect_vec(), vec![entry]),
        Err(_) => unreachable!(),
    }
}

#[test]
fn context_gives_sets_to_its_parts() {
    let repo = repo();
    let context = EvaluationContext {
        store: &repo.store,
        composite_index: &repo.index,
        visible_heads: &repo.ids[6..],
    };
    let listed = |set: &EvaluatedRevset<'_>| -> Vec<u32> {
        let entries = set.iter().collect_vec();
        entries.iter().map(|entry| entry.position().0).collect()
    };
    let set = context.revset_for_commit_ids(&[
        repo.ids[2].clone(),
        repo.ids[4].clone(),
        repo.ids[2].clone(),
    ]);
    assert_eq!(listed(&set), vec![4, 2]);
    assert_eq!(listed(&context.take_latest_revset(&set, 1)), vec![4]);
    assert_eq!(listed(&context.take_latest_revset(&set, 0)), Vec::<u32>::new());
}

#[test]
fn graph_nodes_come_children_first_with_their_edges() {
    let repo = repo();
    let set = repo.evaluate(&repo.commits(&[1, 4, 2]));
    let parents = |entry: &IndexEntry<'_>| -> Vec<u32> {
        entry.parent_positions().iter().map(|p| p.0).collect()
    };
    let mut nodes = set.iter_graph_impl(parents);
    let mut other_nodes = set.iter_graph(|_: &IndexEntry<'_>| vec!["edge"]);
    for (position, edges) in [(4, vec![2, 3]), (2, vec![1]), (1, vec![0])] {
        assert_eq!(nodes.next(), Some((repo.ids[position].clone(), edges)));
        assert_eq!(
            other_nodes.next(),
            Some((repo.ids[position].clone(), vec!["edge"]))
        );
    }
    assert_eq!(nodes.next(), None);
    assert_eq!(other_nodes.next(), None);
}

#[test]
fn changes_of_a_set() {
    let repo = repo();
    let set = repo.evaluate(&repo.commits(&[1, 2, 3, 4]));
    let changes = set.change_id_index();
    let resolve = |hex: &str| changes.resolve_prefix(&HexPrefix::new(hex).unwrap());
    assert_eq!(resolve("1"), PrefixResolution::AmbiguousMatch);
    assert_eq!(resolve("12"), PrefixResolution::AmbiguousMatch);
    assert_eq!(
        resolve("123"),
        PrefixResolution::SingleMatch(vec![repo.ids[1].clone()])
    );
    // Two versions of one change.
    match resolve("a") {
        PrefixResolution::SingleMatch(mut ids) => {
            ids.sort();
            assert_eq!(ids, vec![repo.ids[4].clone(), repo.ids[3].clone()]);
        }
        other => panic!("{other:?}"),
    }
    // The change is not in the set.
    assert_eq!(resolve("dead"), PrefixResolution::NoMatch);
    assert_eq!(resolve("1234f"), PrefixResolution::NoMatch);
    assert_eq!(resolve(""), PrefixResolution::AmbiguousMatch);

    assert_eq!(changes.shortest_unique_prefix_len(&ChangeId::from_hex("1234")), 3);
    assert_eq!(changes.shortest_unique_prefix_len(&ChangeId::from_hex("abcd")), 1);
    assert_eq!(changes.shortest_unique_prefix_len(&ChangeId::from_hex("dead")), 1);
    let nothing = repo.evaluate(&RevsetExpression::Empty).change_id_index();
    assert_eq!(nothing.shortest_unique_prefix_len(&ChangeId::from_hex("1234")), 0);
}

#[test]
fn shortest_prefix_of_a_change_resolves() {
    let repo = repo();
    let changes = repo.evaluate(&all()).change_id_index();
    for (p, hex) in [(0, "00aa"), (1, "1234"), (2, "12ff"), (6, "f000")] {
        let len = changes.shortest_unique_prefix_len(&ChangeId::from_hex(hex));
        assert_eq!(
            changes.resolve_prefix(&HexPrefix::new(&hex[..len]).unwrap()),
            PrefixResolution::SingleMatch(vec![repo.ids[p].clone()])
        );
        for shorter in 0..len {
            assert_eq!(
                changes.resolve_prefix(&HexPrefix::new(&hex[..shorter]).unwrap()),
                PrefixResolution::AmbiguousMatch
            );
        }
    }
}

#[test]
fn one_order_of_iteration() {
    let repo = repo();
    let whole = repo.commits(&[6, 4, 3, 2, 1, 0]);
    let evens = repo.commits(&[0, 2, 4, 6]);
    let odds = repo.commits(&[1, 3]);
    assert_eq!(repo.positions(&whole), repo.positions(&all()));
    assert_eq!(
        repo.positions(&RevsetExpression::Union(odds, evens)),
        repo.positions(&all())
    );
}

#[test]
fn iteration_of_evaluated_sets() {
    let repo = repo();
    let context = EvaluationContext {
        store: &repo.store,
        composite_index: &repo.index,
        visible_heads: &repo.ids[6..],
    };
    let parents: [&[usize]; 7] = [&[], &[0], &[1], &[1], &[2, 3], &[2], &[4]];
    let ann = filter(RevsetFilterPredicate::Author("ann".to_string()));
    let expressions = [
        all(),
        ann.clone(),
        Rc::new(RevsetExpression::Union(repo.commits(&[5, 0]), ann.ancestors())),
        Rc::new(RevsetExpression::NotIn(ann)),
        RevsetExpression::none(),
    ];
    for expression in &expressions {
        let listed = repo.positions(expression);
        // In descending order, each once.
        assert!(listed.windows(2).all(|pair| pair[0] > pair[1]));
        // Children before parents.
        for (i, child) in listed.iter().enumerate() {
            for parent in parents[*child] {
                assert!(!listed[..i].contains(parent));
            }
        }
        // In the order of the set that the context gives.
        let entries = match context.evaluate(expression) {
            Ok(set) => set.iter().collect_vec(),
            Err(_) => unreachable!(),
        };
        let positions: Vec<usize> = entries.iter().map(|e| e.position().0 as usize).collect();
        assert_eq!(positions, listed);
    }
}
