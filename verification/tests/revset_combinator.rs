//! Sets of commits, by iteration and by membership.

use revset_engine::index::{CompositeIndex, IndexEntry};
use revset_engine::iter::{
    ChildrenRevsetIterator, DifferenceRevsetIterator, FilterRevsetIterator, Peekable, PredicateFn,
    RevsetIterator, UnionRevsetIterator,
};
use revset_engine::object_id::{ChangeId, CommitId};
use revset_engine::predicate::{PredicateMatch, PurePredicate};
use revset_engine::revset::{
    ChildrenRevset, DifferenceRevset, EagerRevset, FilterPredicate, FilterRevset, InternalRevset,
    RevWalkRevset, UnionRevset,
};

/// Generator of unique 16-byte ChangeId excluding root id
fn change_id_generator() -> impl FnMut() -> ChangeId {
    let mut iter = (1_u128..).map(|n| ChangeId::new(n.to_le_bytes().into()));
    move || iter.next().unwrap()
}

/// Holds of every commit but one.
struct IsNot(CommitId);

impl<'index> PurePredicate<'index> for IsNot {
    fn is_defined_at(&self, _entry: IndexEntry<'index>) -> bool {
        true
    }

    fn accepts(&self, entry: IndexEntry<'index>) -> bool {
        entry.commit_id() != self.0
    }

    fn test(&self, entry: &IndexEntry<'index>) -> PredicateMatch {
        PredicateMatch::from_boolean(entry.commit_id() != self.0)
    }
}

type TestSet<'index> = InternalRevset<'index, IsNot>;

fn linear_index(ids: &[CommitId]) -> CompositeIndex {
    let mut new_change_id = change_id_generator();
    let mut index = CompositeIndex::full(3, 16);
    for (i, id) in ids.iter().enumerate() {
        let parents = if i > 0 { &ids[i - 1..i] } else { &[] };
        index.add_commit_data(id.clone(), new_change_id(), parents);
    }
    index
}

#[test]
fn test_revset_combinator() {
    let mut new_change_id = change_id_generator();
    let mut index = CompositeIndex::full(3, 16);
    let id_0 = CommitId::from_hex("000000");
    let id_1 = CommitId::from_hex("111111");
    let id_2 = CommitId::from_hex("222222");
    let id_3 = CommitId::from_hex("333333");
    let id_4 = CommitId::from_hex("444444");
    index.add_commit_data(id_0.clone(), new_change_id(), &[]);
    index.add_commit_data(id_1.clone(), new_change_id(), &[id_0.clone()]);
    index.add_commit_data(id_2.clone(), new_change_id(), &[id_1.clone()]);
    index.add_commit_data(id_3.clone(), new_change_id(), &[id_2.clone()]);
    index.add_commit_data(id_4.clone(), new_change_id(), &[id_3.clone()]);

    let get_entry = |id: &CommitId| index.entry_by_id(id).unwrap();
    let make_entries =
        |ids: &[&CommitId]| -> Vec<IndexEntry<'_>> { ids.iter().map(|id| get_entry(id)).collect() };
    let make_set = |ids: &[&CommitId]| -> Box<TestSet<'_>> {
        let index_entries = make_entries(ids);
        Box::new(InternalRevset::Eager(EagerRevset { index_entries }))
    };

    let set = make_set(&[&id_4, &id_3, &id_2, &id_0]);
    let mut p = set.to_predicate_fn();
    assert_eq!(p.test(&get_entry(&id_4)), PredicateMatch::Match);
    assert_eq!(p.test(&get_entry(&id_3)), PredicateMatch::Match);
    assert_eq!(p.test(&get_entry(&id_2)), PredicateMatch::Match);
    assert_eq!(p.test(&get_entry(&id_1)), PredicateMatch::NotThisOne);
    assert_eq!(p.test(&get_entry(&id_0)), PredicateMatch::Match);
    // Uninteresting entries can be skipped
    let mut p = set.to_predicate_fn();
    assert_eq!(p.test(&get_entry(&id_3)), PredicateMatch::Match);
    assert_eq!(p.test(&get_entry(&id_1)), PredicateMatch::NotThisOne);
    assert_eq!(p.test(&get_entry(&id_0)), PredicateMatch::Match);

    let set = FilterRevset {
        candidates: make_set(&[&id_4, &id_2, &id_0]),
        predicate: FilterPredicate::Pure(IsNot(id_4.clone())),
    };
    assert_eq!(set.iter().collect_vec(), make_entries(&[&id_2, &id_0]));
    let mut p = set.to_predicate_fn();
    assert_eq!(p.test(&get_entry(&id_4)), PredicateMatch::NotThisOne);
    assert_eq!(p.test(&get_entry(&id_3)), PredicateMatch::NotThisOne);
    assert_eq!(p.test(&get_entry(&id_2)), PredicateMatch::Match);
    assert_eq!(p.test(&get_entry(&id_1)), PredicateMatch::NotThisOne);
    assert_eq!(p.test(&get_entry(&id_0)), PredicateMatch::Match);

    // Intersection by FilterRevset
    let set = FilterRevset {
        candidates: make_set(&[&id_4, &id_2, &id_0]),
        predicate: FilterPredicate::Revset(make_set(&[&id_3, &id_2, &id_1])),
    };
    assert_eq!(set.iter().collect_vec(), make_entries(&[&id_2]));
    let mut p = set.to_predicate_fn();
    assert_eq!(p.test(&get_entry(&id_4)), PredicateMatch::NotThisOne);
    assert_eq!(p.test(&get_entry(&id_3)), PredicateMatch::NotThisOne);
    assert_eq!(p.test(&get_entry(&id_2)), PredicateMatch::Match);
    assert_eq!(p.test(&get_entry(&id_1)), PredicateMatch::NotThisOne);
    assert_eq!(p.test(&get_entry(&id_0)), PredicateMatch::NeverAgain);

    // Intersection terminates early (but it's still okay to ask again)
    let set = FilterRevset {
        candidates: make_set(&[&id_4, &id_3]),
        predicate: FilterPredicate::Revset(make_set(&[&id_3, &id_2])),
    };
    assert_eq!(set.iter().collect_vec(), make_entries(&[&id_3]));
    let mut p = set.to_predicate_fn();
    assert_eq!(p.test(&get_entry(&id_4)), PredicateMatch::NotThisOne);
    assert_eq!(p.test(&get_entry(&id_3)), PredicateMatch::Match);
    assert_eq!(p.test(&get_entry(&id_2)), PredicateMatch::NeverAgain);
    assert_eq!(p.test(&get_entry(&id_1)), PredicateMatch::NeverAgain);
    assert_eq!(p.test(&get_entry(&id_0)), PredicateMatch::NeverAgain);

    let set = UnionRevset {
        set1: make_set(&[&id_4, &id_2]),
        set2: make_set(&[&id_3, &id_2, &id_1]),
    };
    assert_eq!(
        set.iter().collect_vec(),
        make_entries(&[&id_4, &id_3, &id_2, &id_1])
    );
    let mut p = set.to_predicate_fn();
    assert_eq!(p.test(&get_entry(&id_4)), PredicateMatch::Match);
    assert_eq!(p.test(&get_entry(&id_3)), PredicateMatch::Match);
    assert_eq!(p.test(&get_entry(&id_2)), PredicateMatch::Match);
    assert_eq!(p.test(&get_entry(&id_1)), PredicateMatch::Match);
    assert_eq!(p.test(&get_entry(&id_0)), PredicateMatch::NeverAgain);

    // Intersection terminates early (but it's still okay to ask again)
    let set = UnionRevset {
        set1: make_set(&[&id_4, &id_2]),
        set2: make_set(&[&id_3, &id_2]),
    };
    assert_eq!(
        set.iter().collect_vec(),
        make_entries(&[&id_4, &id_3, &id_2])
    );
    let mut p = set.to_predicate_fn();
    assert_eq!(p.test(&get_entry(&id_4)), PredicateMatch::Match);
    assert_eq!(p.test(&get_entry(&id_3)), PredicateMatch::Match);
    assert_eq!(p.test(&get_entry(&id_2)), PredicateMatch::Match);
    assert_eq!(p.test(&get_entry(&id_1)), PredicateMatch::NeverAgain);
    assert_eq!(p.test(&get_entry(&id_0)), PredicateMatch::NeverAgain);

    let set = FilterRevset {
        candidates: make_set(&[&id_4, &id_2, &id_0]),
        predicate: FilterPredicate::Revset(make_set(&[&id_3, &id_2, &id_1])),
    };
    assert_eq!(set.iter().collect_vec(), make_entries(&[&id_2]));
    let mut p = set.to_predicate_fn();
    assert_eq!(p.test(&get_entry(&id_4)), PredicateMatch::NotThisOne);
    assert_eq!(p.test(&get_entry(&id_3)), PredicateMatch::NotThisOne);
    assert_eq!(p.test(&get_entry(&id_2)), PredicateMatch::Match);
    assert_eq!(p.test(&get_entry(&id_1)), PredicateMatch::NotThisOne);
    assert_eq!(p.test(&get_entry(&id_0)), PredicateMatch::NeverAgain);

    let set = DifferenceRevset {
        set1: make_set(&[&id_4, &id_2, &id_0]),
        set2: make_set(&[&id_3, &id_2, &id_1]),
    };
    assert_eq!(set.iter().collect_vec(), make_entries(&[&id_4, &id_0]));
    let mut p = set.to_predicate_fn();
    assert_eq!(p.test(&get_entry(&id_4)), PredicateMatch::Match);
    assert_eq!(p.test(&get_entry(&id_3)), PredicateMatch::NotThisOne);
    assert_eq!(p.test(&get_entry(&id_2)), PredicateMatch::NotThisOne);
    assert_eq!(p.test(&get_entry(&id_1)), PredicateMatch::NotThisOne);
    assert_eq!(p.test(&get_entry(&id_0)), PredicateMatch::Match);

    // Difference terminates early (but it's still okay to ask again)
    let set = DifferenceRevset {
        set1: make_set(&[&id_4, &id_3]),
        set2: make_set(&[&id_3, &id_2, &id_1]),
    };
    assert_eq!(set.iter().collect_vec(), make_entries(&[&id_4]));
    let mut p = set.to_predicate_fn();
    assert_eq!(p.test(&get_entry(&id_4)), PredicateMatch::Match);
    assert_eq!(p.test(&get_entry(&id_3)), PredicateMatch::NotThisOne);
    assert_eq!(p.test(&get_entry(&id_2)), PredicateMatch::NeverAgain);
    assert_eq!(p.test(&get_entry(&id_1)), PredicateMatch::NeverAgain);
    assert_eq!(p.test(&get_entry(&id_0)), PredicateMatch::NeverAgain);
}

const OUTCOMES: [PredicateMatch; 3] = [
    PredicateMatch::Match,
    PredicateMatch::NotThisOne,
    PredicateMatch::NeverAgain,
];

#[test]
fn outcomes_combine() {
    let m = PredicateMatch::Match;
    let n = PredicateMatch::NotThisOne;
    let e = PredicateMatch::NeverAgain;
    assert_eq!(PredicateMatch::from_boolean(true), m);
    assert_eq!(PredicateMatch::from_boolean(false), n);
    let and = [[m, n, e], [n, n, e], [e, e, e]];
    let or = [[m, m, m], [m, n, n], [m, n, e]];
    let and_not = [[n, m, m], [n, n, n], [e, e, e]];
    for i in 0..3 {
        for j in 0..3 {
            assert_eq!(OUTCOMES[i].and(OUTCOMES[j]), and[i][j]);
            assert_eq!(OUTCOMES[i].or(OUTCOMES[j]), or[i][j]);
            assert_eq!(OUTCOMES[i].and_not(OUTCOMES[j]), and_not[i][j]);
            for k in 0..3 {
                let (a, b, c) = (OUTCOMES[i], OUTCOMES[j], OUTCOMES[k]);
                assert_eq!(a.and(b).and(c), a.and(b.and(c)));
                assert_eq!(a.or(b).or(c), a.or(b.or(c)));
            }
        }
    }
}

#[test]
fn empty_set_has_no_entries() {
    let ids = [CommitId::from_hex("000000")];
    let index = linear_index(&ids);
    let set = EagerRevset::empty();
    let iter: RevsetIterator<'_, '_, IsNot> = set.iter();
    assert_eq!(iter.collect_vec(), vec![]);
    let mut p: PredicateFn<'_, '_, IsNot> = set.to_predicate_fn();
    let entry = index.entry_by_id(&ids[0]).unwrap();
    assert_eq!(p.test(&entry), PredicateMatch::NeverAgain);
}

#[test]
fn walks_and_children_are_sets() {
    let ids: Vec<CommitId> = ["000000", "111111", "222222", "333333"]
        .iter()
        .map(|hex| CommitId::from_hex(hex))
        .collect();
    let index = linear_index(&ids);
    let entry = |i: usize| index.entry_by_id(&ids[i]).unwrap();

    let walk = RevWalkRevset {
        walk: index.walk_revs(&ids[2..3], &ids[..1]),
    };
    let iter: RevsetIterator<'_, '_, IsNot> = walk.iter();
    assert_eq!(iter.collect_vec(), vec![entry(2), entry(1)]);
    let mut p: PredicateFn<'_, '_, IsNot> = walk.to_predicate_fn();
    assert_eq!(p.test(&entry(3)), PredicateMatch::NotThisOne);
    assert_eq!(p.test(&entry(2)), PredicateMatch::Match);
    assert_eq!(p.test(&entry(1)), PredicateMatch::Match);
    assert_eq!(p.test(&entry(0)), PredicateMatch::NeverAgain);

    let children: ChildrenRevset<'_, IsNot> = ChildrenRevset {
        root_set: Box::new(InternalRevset::Eager(EagerRevset {
            index_entries: vec![entry(2), entry(0)],
        })),
        candidate_set: Box::new(InternalRevset::Eager(EagerRevset {
            index_entries: vec![entry(3), entry(2), entry(1)],
        })),
    };
    assert_eq!(children.iter().collect_vec(), vec![entry(3), entry(1)]);
    let mut p = children.to_predicate_fn();
    assert_eq!(p.test(&entry(3)), PredicateMatch::Match);
    assert_eq!(p.test(&entry(2)), PredicateMatch::NotThisOne);
    assert_eq!(p.test(&entry(1)), PredicateMatch::Match);
    assert_eq!(p.test(&entry(0)), PredicateMatch::NeverAgain);
}

#[test]
fn iteration_and_membership_agree() {
    let ids: Vec<CommitId> = (0u8..6).map(|i| CommitId::new(vec![i, i, i])).collect();
    let index = linear_index(&ids);
    let entry = |i: usize| index.entry_by_id(&ids[i]).unwrap();
    let eager = |positions: &[usize]| -> Box<TestSet<'_>> {
        let index_entries = positions.iter().map(|i| entry(*i)).collect();
        Box::new(InternalRevset::Eager(EagerRevset { index_entries }))
    };
    let sets: Vec<TestSet<'_>> = vec![
        *eager(&[5, 3, 0]),
        InternalRevset::Union(UnionRevset {
            set1: eager(&[5, 1]),
            set2: eager(&[4, 1, 0]),
        }),
        InternalRevset::Difference(DifferenceRevset {
            set1: eager(&[5, 4, 2, 0]),
            set2: eager(&[4, 3, 0]),
        }),
        InternalRevset::Filter(FilterRevset {
            candidates: eager(&[5, 4, 2, 0]),
            predicate: FilterPredicate::Revset(eager(&[4, 3, 0])),
        }),
        InternalRevset::Filter(FilterRevset {
            candidates: eager(&[5, 4, 2, 0]),
            predicate: FilterPredicate::Pure(IsNot(ids[4].clone())),
        }),
    ];
    for set in &sets {
        let listed = set.iter().collect_vec();
        assert!(listed.windows(2).all(|w| w[0].position() > w[1].position()));
        let mut p = set.to_predicate_fn();
        let mut over = false;
        for i in (0..6).rev() {
            let outcome = p.test(&entry(i));
            assert_eq!(outcome == PredicateMatch::Match, listed.contains(&entry(i)));
            assert!(!over || outcome != PredicateMatch::Match);
            over = over || outcome == PredicateMatch::NeverAgain;
        }
    }
}

#[test]
fn steps_take_no_more_than_they_need() {
    let ids: Vec<CommitId> = (0u8..6).map(|i| CommitId::new(vec![i, i, i])).collect();
    let index = linear_index(&ids);
    let entry = |i: usize| index.entry_by_id(&ids[i]).unwrap();
    let eager = |positions: &[usize]| -> TestSet<'_> {
        let index_entries = positions.iter().map(|i| entry(*i)).collect();
        InternalRevset::Eager(EagerRevset { index_entries })
    };

    // The union passes an entry that both have on both sides.
    let (set1, set2) = (eager(&[5, 3, 1]), eager(&[5, 2, 1]));
    let mut union = UnionRevsetIterator {
        iter1: Peekable::new(set1.iter()),
        iter2: Peekable::new(set2.iter()),
    };
    assert_eq!(union.next(), Some(entry(5)));
    assert_eq!(union.iter1.peek(), Some(entry(3)));
    assert_eq!(union.iter2.peek(), Some(entry(2)));
    assert_eq!(union.next(), Some(entry(3)));
    assert_eq!(union.next(), Some(entry(2)));
    assert_eq!(union.next(), Some(entry(1)));
    assert_eq!(union.next(), None);
    assert_eq!((union.iter1.peek(), union.iter2.peek()), (None, None));

    // The difference leaves what is below the entry on both sides.
    let (set1, set2) = (eager(&[5, 4, 3, 2]), eager(&[5, 3, 2, 1, 0]));
    let mut difference = DifferenceRevsetIterator {
        iter1: Peekable::new(set1.iter()),
        iter2: Peekable::new(set2.iter()),
    };
    assert_eq!(difference.next(), Some(entry(4)));
    assert_eq!(difference.iter1.peek(), Some(entry(3)));
    assert_eq!(difference.iter2.peek(), Some(entry(3)));
    assert_eq!(difference.next(), None);
    assert_eq!(difference.iter1.peek(), None);
    assert_eq!(difference.iter2.peek(), Some(entry(1)));
    assert_eq!(difference.next(), None);
    assert_eq!(difference.iter2.peek(), Some(entry(1)));

    // The filter stops at a match, and once the predicate will not match again.
    let (candidates, wanted) = (eager(&[5, 4, 3, 1, 0]), eager(&[4, 2]));
    let mut filter = FilterRevsetIterator {
        candidates_iter: candidates.iter(),
        predicate: wanted.to_predicate_fn(),
    };
    assert_eq!(filter.next(), Some(entry(4)));
    assert_eq!(filter.next(), None);
    // 3 did not match, 1 ended it, and 0 has not been taken.
    assert_eq!(filter.candidates_iter.next(), Some(entry(0)));
    assert_eq!(filter.candidates_iter.next(), None);

    let candidates = eager(&[5, 4, 3, 2]);
    let mut children = ChildrenRevsetIterator {
        candidates_iter: candidates.iter(),
        roots: [3].into_iter().collect(),
    };
    assert_eq!(children.next(), Some(entry(4)));
    assert_eq!(children.candidates_iter.next(), Some(entry(3)));
    assert_eq!(children.next(), None);
    assert_eq!(children.candidates_iter.next(), None);
}
