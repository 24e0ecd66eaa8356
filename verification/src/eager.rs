//! Sets whose entries are listed.

use crate::engine;
use crate::engine::{EvaluatedRevset, EvaluationContext};
use crate::graph;
use crate::index;
use crate::index::{CompositeIndex, IndexEntry};
use crate::iter;
use crate::object_id::CommitId;
use crate::revset;
use crate::revset::{EagerRevset, InternalRevset};
use crate::sort;
use crate::sort::SortItem;
use vstd::prelude::*;

verus! {

broadcast use {
    vstd::std_specs::hash::group_hash_axioms,
    vstd::seq_lib::group_to_multiset_ensures,
};

impl<'index> SortItem for IndexEntry<'index> {
    /// Higher positions come first.
    open spec fn sorts_before(&self, other: &Self) -> bool {
        self.pos.0 >= other.pos.0
    }

    proof fn lemma_total_preorder(a: &Self, b: &Self, c: &Self) {
    }

    fn is_before(&self, other: &Self) -> (before: bool) {
        self.pos.0 >= other.pos.0
    }
}

/// The positions of the listed entries.
pub open spec fn listed_positions<'index>(entries: Seq<IndexEntry<'index>>) -> Set<u32> {
    Set::new(|p: u32| exists|i: int| 0 <= i < entries.len() && (#[trigger] entries[i]).pos.0 == p)
}

/// The entries are of the index.
pub open spec fn are_of_index<'index>(
    entries: Seq<IndexEntry<'index>>,
    index: &'index CompositeIndex,
) -> bool {
    forall|i: int|
        0 <= i < entries.len() ==> (#[trigger] entries[i]).index == index && entries[i].wf()
}

impl<'index, 'heads> EvaluationContext<'index, 'heads> {
    /// The set of the entries, in descending order of position, without repetitions.
    pub(crate) fn eager_revset(&self, index_entries: Vec<IndexEntry<'index>>) -> (set:
        EvaluatedRevset<'index>)
        requires
            are_of_index(index_entries@, self.composite_index),
        ensures
            set is Eager,
            engine::is_set_of(set, self.composite_index, listed_positions(index_entries@)),
    {
        let ghost given = index_entries@;
        let sorted = sort::sort(index_entries);
        proof {
            assert forall|entry: IndexEntry<'index>| #[trigger]
                given.contains(entry) <==> sorted@.contains(entry) by {
                assert(sorted@.to_multiset().count(entry) == given.to_multiset().count(entry));
            }
            assert forall|i: int| 0 <= i < sorted@.len() implies (#[trigger] sorted@[i]).index
                == self.composite_index && sorted@[i].wf() by {
                assert(given.contains(sorted@[i]));
            }
        }
        let mut index_entries: Vec<IndexEntry<'index>> = Vec::new();
        for i in 0..sorted.len()
            invariant
                sort::is_sorted(sorted@),
                are_of_index(sorted@, self.composite_index),
                are_of_index(index_entries@, self.composite_index),
                iter::is_descending(index_entries@),
                i > 0 ==> index_entries@.len() > 0 && index_entries@.last().pos.0
                    == sorted@[i - 1].pos.0,
                i == 0 ==> index_entries@.len() == 0,
                forall|p: u32|
                    #[trigger] listed_positions(index_entries@).contains(p) <==> exists|j: int|
                        0 <= j < i && (#[trigger] sorted@[j]).pos.0 == p,
        {
            let entry = sorted[i];
            let ghost before = index_entries@;
            if i == 0 || entry.position() != sorted[i - 1].position() {
                index_entries.push(entry);
                proof {
                    if i > 0 {
                        assert(sorted@[i - 1].sorts_before(&sorted@[i as int]));
                    }
                    assert(iter::is_descending(index_entries@));
                    assert forall|p: u32| #[trigger]
                        listed_positions(index_entries@).contains(p) <==> listed_positions(
                            before,
                        ).contains(p) || p == entry.pos.0 by {
                        if listed_positions(before).contains(p) {
                            let j = choose|j: int|
                                0 <= j < before.len() && (#[trigger] before[j]).pos.0 == p;
                            assert(index_entries@[j].pos.0 == p);
                        }
                        assert(index_entries@.last() == entry);
                    }
                }
            }
        }
        proof {
            assert forall|p: u32| #[trigger]
                listed_positions(given).contains(p) <==> listed_positions(
                    index_entries@,
                ).contains(p) by {
                if listed_positions(given).contains(p) {
                    let j = choose|j: int| 0 <= j < given.len() && (#[trigger] given[j]).pos.0 == p;
                    assert(given.contains(given[j]));
                    let k = choose|k: int| 0 <= k < sorted@.len() && sorted@[k] == given[j];
                    assert(sorted@[k].pos.0 == p);
                }
                if listed_positions(index_entries@).contains(p) {
                    let k = choose|k: int|
                        0 <= k < sorted@.len() && (#[trigger] sorted@[k]).pos.0 == p;
                    assert(given.contains(sorted@[k]));
                    let j = choose|j: int| 0 <= j < given.len() && given[j] == sorted@[k];
                    assert(given[j].pos.0 == p);
                }
            }
        }
        let set: EvaluatedRevset<'index> = InternalRevset::Eager(EagerRevset { index_entries });
        assert(set.entries().dom() =~= listed_positions(given));
        set
    }

    /// The set of the commits with the identifiers.
    pub fn revset_for_commit_ids(&self, commit_ids: &[CommitId]) -> (set: EvaluatedRevset<'index>)
        requires
            self.composite_index.wf(),
            index::are_indexed(self.composite_index@, commit_ids@),
        ensures
            set is Eager,
            engine::is_set_of(
                set,
                self.composite_index,
                index::positions_of(self.composite_index@, commit_ids@),
            ),
    {
        let mut index_entries: Vec<IndexEntry<'index>> = Vec::new();
        let ghost graph = self.composite_index@;
        for i in 0..commit_ids.len()
            invariant
                self.composite_index.wf(),
                graph == self.composite_index@,
                index::are_indexed(graph, commit_ids@),
                are_of_index(index_entries@, self.composite_index),
                index_entries@.len() == i,
                forall|j: int|
                    0 <= j < i ==> graph[(#[trigger] index_entries@[j]).pos.0 as int].commit_id
                        == commit_ids@[j]@,
        {
            assert(index::is_indexed(graph, commit_ids@[i as int]@));
            index_entries.push(self.composite_index.entry_by_id(&commit_ids[i]).unwrap());
        }
        proof {
            let numbers = index_entries@.map_values(|entry: IndexEntry<'index>| entry.pos.0);
            index::lemma_ids_of_positions(graph, commit_ids@, numbers);
            assert forall|p: u32| #[trigger]
                listed_positions(index_entries@).contains(p) <==> index::positions_of(
                    graph,
                    commit_ids@,
                ).contains(p) by {
                if listed_positions(index_entries@).contains(p) {
                    let j = choose|j: int|
                        0 <= j < index_entries@.len() && (#[trigger] index_entries@[j]).pos.0 == p;
                    assert(numbers[j] == p);
                }
                if numbers.contains(p) {
                    let j = choose|j: int| 0 <= j < numbers.len() && numbers[j] == p;
                    assert(index_entries@[j].pos.0 == p);
                }
            }
            assert(listed_positions(index_entries@) =~= index::positions_of(graph, commit_ids@));
        }
        self.eager_revset(index_entries)
    }

    /// The identifiers of the commits of the set.
    pub(crate) fn commit_ids(&self, set: &EvaluatedRevset<'index>) -> (ids: Vec<CommitId>)
        requires
            self.composite_index.wf(),
            set.wf(),
            set.is_over(self.composite_index),
            set.is_iterable(),
        ensures
            index::are_indexed(self.composite_index@, ids@),
            index::positions_of(self.composite_index@, ids@) == set.entries().dom(),
    {
        let entries = set.iter().collect_vec();
        let ghost graph = self.composite_index@;
        proof {
            revset::lemma_entries_over_index(*set, self.composite_index);
            assert forall|i: int| 0 <= i < entries@.len() implies (#[trigger] entries@[i]).index
                == self.composite_index by {
                iter::lemma_entry_map(entries@, i);
            }
        }
        let mut ids: Vec<CommitId> = Vec::with_capacity(entries.len());
        for i in 0..entries.len()
            invariant
                graph == self.composite_index@,
                are_of_index(entries@, self.composite_index),
                ids@.len() == i,
                forall|j: int|
                    0 <= j < i ==> (#[trigger] ids@[j])@
                        == graph[entries@[j].pos.0 as int].commit_id,
        {
            ids.push(entries[i].commit_id());
        }
        proof {
            let numbers = entries@.map_values(|entry: IndexEntry<'index>| entry.pos.0);
            index::lemma_ids_of_positions(graph, ids@, numbers);
            assert forall|p: u32| #[trigger]
                numbers.contains(p) <==> set.entries().dom().contains(p) by {
                if numbers.contains(p) {
                    let i = choose|i: int| 0 <= i < numbers.len() && numbers[i] == p;
                    iter::lemma_entry_map(entries@, i);
                }
                if set.entries().dom().contains(p) {
                    let i = choose|i: int|
                        0 <= i < entries@.len() && (#[trigger] entries@[i]).pos.0 == p;
                    assert(numbers[i] == p);
                }
            }
            assert forall|p: u32|
                index::positions_of(graph, ids@).contains(p) <==> set.entries().dom().contains(
                    p,
                ) by {
                assert(numbers.contains(p) <==> set.entries().dom().contains(p));
            }
            assert(index::positions_of(graph, ids@) =~= set.entries().dom());
        }
        ids
    }
}

impl<'index, 'heads> EvaluationContext<'index, 'heads> {
    /// The candidates that descend from a root, or are one.
    pub(crate) fn dag_range_revset(
        &self,
        root_set: &EvaluatedRevset<'index>,
        candidate_set: &EvaluatedRevset<'index>,
    ) -> (set: EvaluatedRevset<'index>)
        requires
            self.composite_index.wf(),
            root_set.wf(),
            root_set.is_over(self.composite_index),
            root_set.is_iterable(),
            candidate_set.wf(),
            candidate_set.is_over(self.composite_index),
            candidate_set.is_iterable(),
            is_closed_under_parents(self.composite_index@, candidate_set.entries().dom()),
        ensures
            set is Eager,
            engine::is_set_of(
                set,
                self.composite_index,
                candidate_set.entries().dom().filter(
                    |p: u32| graph::descends_from(self.composite_index@, root_set.entries().dom(), p),
                ),
            ),
    {
        let ghost graph = self.composite_index@;
        let ghost roots = root_set.entries().dom();
        let ghost all = candidate_set.entries().dom();
        let mut reachable = revset::collect_positions(root_set.iter());
        let candidates = candidate_set.iter().collect_vec();
        proof {
            revset::lemma_entries_over_index(*candidate_set, self.composite_index);
            assert forall|i: int| 0 <= i < candidates@.len() implies (#[trigger] candidates@[i]).index
                == self.composite_index && candidates@[i].wf() by {
                iter::lemma_entry_map(candidates@, i);
            }
            assert(listed_positions(candidates@) =~= all);
            assert(candidates@.skip(candidates@.len() as int) =~= Seq::empty());
        }
        // In ascending order of position, parents first.
        let mut result: Vec<IndexEntry<'index>> = Vec::new();
        let mut rest: usize = candidates.len();
        while rest > 0
            invariant
                self.composite_index.wf(),
                graph == self.composite_index@,
                rest <= candidates@.len(),
                iter::is_descending(candidates@),
                are_of_index(candidates@, self.composite_index),
                is_closed_under_parents(graph, listed_positions(candidates@)),
                are_of_index(result@, self.composite_index),
                forall|i: int, j: int|
                    0 <= i < j < result@.len() ==> (#[trigger] result@[i]).pos.0 < (
                    #[trigger] result@[j]).pos.0,
                forall|p: u32| #[trigger]
                    listed_positions(result@).contains(p) <==> listed_positions(
                        candidates@.skip(rest as int),
                    ).contains(p) && graph::descends_from(graph, roots, p),
                reachable@ == roots.union(listed_positions(result@)),
            decreases rest,
        {
            rest = rest - 1;
            let candidate = candidates[rest];
            let ghost p = candidate.pos.0;
            let ghost before = result@;
            let ghost reached = reachable@;
            let wanted = reachable.contains(&candidate.position().0) || iter::any_parent_in(
                &candidate,
                &reachable,
            );
            proof {
                lemma_reached(graph, candidates@, rest as int, roots, reached);
                lemma_listed_skip(candidates@, rest as int);
                lemma_listed_push(before, candidate);
                assert forall|i: int| 0 <= i < before.len() implies (#[trigger] before[i]).pos.0
                    < p by {
                    let later = candidates@.skip(rest + 1);
                    assert(listed_positions(before).contains(before[i].pos.0));
                    let j = choose|j: int|
                        0 <= j < later.len() && (#[trigger] later[j]).pos.0 == before[i].pos.0;
                    assert(candidates@[rest + 1 + j].pos.0 < candidates@[rest as int].pos.0);
                }
            }
            if wanted {
                reachable.insert(candidate.position().0);
                result.push(candidate);
                assert(reachable@ =~= roots.union(listed_positions(result@)));
            }
        }
        let ghost ascending = result@;
        let index_entries = sort::reversed(result);
        let set: EvaluatedRevset<'index> = InternalRevset::Eager(EagerRevset { index_entries });
        proof {
            let wanted = all.filter(|p: u32| graph::descends_from(graph, roots, p));
            assert(candidates@.skip(0) =~= candidates@);
            assert forall|p: u32| #[trigger]
                set.entries().dom().contains(p) <==> wanted.contains(p) by {
                if set.entries().dom().contains(p) {
                    let i = choose|i: int|
                        0 <= i < index_entries@.len() && (#[trigger] index_entries@[i]).pos.0 == p;
                    assert(ascending[ascending.len() - 1 - i].pos.0 == p);
                    assert(listed_positions(ascending).contains(p));
                }
                if wanted.contains(p) {
                    assert(listed_positions(ascending).contains(p));
                    let i = choose|i: int|
                        0 <= i < ascending.len() && (#[trigger] ascending[i]).pos.0 == p;
                    assert(index_entries@[ascending.len() - 1 - i].pos.0 == p);
                }
            }
            assert(set.entries().dom() =~= wanted);
        }
        set
    }
}

/// The set holds the parents of what it holds.
pub open spec fn is_closed_under_parents(
    graph: Seq<graph::IndexedCommit>,
    set: Set<u32>,
) -> bool {
    forall|child: u32, p: u32|
        set.contains(child) && #[trigger] graph::is_parent(graph, child, p) ==> set.contains(p)
}

/// Once all lower candidates have been gone through, those that descend from a root are the roots
/// and those with a parent that has been reached.
proof fn lemma_reached<'index>(
    graph: Seq<graph::IndexedCommit>,
    candidates: Seq<IndexEntry<'index>>,
    rest: int,
    roots: Set<u32>,
    reached: Set<u32>,
)
    requires
        graph::is_graph(graph),
        0 <= rest < candidates.len(),
        iter::is_descending(candidates),
        candidates[rest].index@ == graph,
        is_closed_under_parents(graph, listed_positions(candidates)),
        forall|p: u32| #[trigger]
            reached.contains(p) <==> roots.contains(p) || (listed_positions(
                candidates.skip(rest + 1),
            ).contains(p) && graph::descends_from(graph, roots, p)),
    ensures
        graph::descends_from(graph, roots, candidates[rest].pos.0) <==> reached.contains(
            candidates[rest].pos.0,
        ) || iter::has_parent_in(candidates[rest], reached),
{
    let p = candidates[rest].pos.0;
    let later = candidates.skip(rest + 1);
    let parents = candidates[rest].commit().parents;
    if reached.contains(p) && roots.contains(p) {
        graph::lemma_ancestor_step(graph, p, p);
    }
    if iter::has_parent_in(candidates[rest], reached) {
        let parent = choose|parent: u32| #[trigger]
            reached.contains(parent) && parents.contains(parent);
        assert(graph::is_parent(graph, p, parent));
        graph::lemma_ancestor_step(graph, parent, parent);
        let root = if roots.contains(parent) {
            parent
        } else {
            choose|root: u32| #[trigger]
                roots.contains(root) && graph::is_ancestor(graph, root, parent)
        };
        graph::lemma_ancestor_step(graph, root, p);
        assert(roots.contains(root) && graph::is_ancestor(graph, root, p));
    }
    if graph::descends_from(graph, roots, p) {
        let root = choose|root: u32| #[trigger]
            roots.contains(root) && graph::is_ancestor(graph, root, p);
        graph::lemma_ancestor_step(graph, root, p);
        if root != p {
            let parent = choose|parent: u32| #[trigger]
                graph::is_parent(graph, p, parent) && graph::is_ancestor(graph, root, parent);
            graph::lemma_parent_below(graph, p, parent);
            assert(listed_positions(candidates).contains(p));
            assert(listed_positions(candidates).contains(parent));
            let i = choose|i: int|
                0 <= i < candidates.len() && (#[trigger] candidates[i]).pos.0 == parent;
            if i < rest {
                assert(candidates[rest].pos.0 < candidates[i].pos.0);
            }
            assert(later[i - rest - 1].pos.0 == parent);
            assert(graph::descends_from(graph, roots, parent));
            assert(reached.contains(parent) && parents.contains(parent));
        }
    }
}

proof fn lemma_listed_skip<'index>(entries: Seq<IndexEntry<'index>>, i: int)
    requires
        0 <= i < entries.len(),
    ensures
        listed_positions(entries.skip(i)) == listed_positions(entries.skip(i + 1)).insert(
            entries[i].pos.0,
        ),
{
    let all = entries.skip(i);
    let later = entries.skip(i + 1);
    assert forall|p: u32| #[trigger]
        listed_positions(all).contains(p) <==> listed_positions(later).insert(
            entries[i].pos.0,
        ).contains(p) by {
        if listed_positions(later).contains(p) {
            let j = choose|j: int| 0 <= j < later.len() && (#[trigger] later[j]).pos.0 == p;
            assert(all[j + 1].pos.0 == p);
        }
        assert(all[0].pos.0 == entries[i].pos.0);
        if listed_positions(all).contains(p) && p != entries[i].pos.0 {
            let j = choose|j: int| 0 <= j < all.len() && (#[trigger] all[j]).pos.0 == p;
            assert(later[j - 1].pos.0 == p);
        }
    }
    assert(listed_positions(all) =~= listed_positions(later).insert(entries[i].pos.0));
}

proof fn lemma_listed_push<'index>(entries: Seq<IndexEntry<'index>>, entry: IndexEntry<'index>)
    ensures
        listed_positions(entries.push(entry)) == listed_positions(entries).insert(entry.pos.0),
{
    let all = entries.push(entry);
    assert forall|p: u32| #[trigger]
        listed_positions(all).contains(p) <==> listed_positions(entries).insert(
            entry.pos.0,
        ).contains(p) by {
        if listed_positions(entries).contains(p) {
            let i = choose|i: int| 0 <= i < entries.len() && (#[trigger] entries[i]).pos.0 == p;
            assert(all[i].pos.0 == p);
        }
        assert(all[entries.len() as int].pos.0 == entry.pos.0);
        if listed_positions(all).contains(p) && p != entry.pos.0 {
            let i = choose|i: int| 0 <= i < all.len() && (#[trigger] all[i]).pos.0 == p;
            assert(entries[i].pos.0 == p);
        }
    }
    assert(listed_positions(all) =~= listed_positions(entries).insert(entry.pos.0));
}

impl<'index, 'heads> EvaluationContext<'index, 'heads> {
    /// The candidates without a parent among the candidates and what lies between them.
    pub(crate) fn roots_revset(
        &self,
        candidate_set: &EvaluatedRevset<'index>,
        connected_set: &EvaluatedRevset<'index>,
    ) -> (set: EvaluatedRevset<'index>)
        requires
            self.composite_index.wf(),
            candidate_set.wf(),
            candidate_set.is_over(self.composite_index),
            candidate_set.is_iterable(),
            connected_set.wf(),
            connected_set.is_iterable(),
            connected_set.entries().dom() == graph::dag_range(
                self.composite_index@,
                candidate_set.entries().dom(),
                candidate_set.entries().dom(),
            ),
        ensures
            set is Eager,
            engine::is_set_of(
                set,
                self.composite_index,
                graph::roots_of(self.composite_index@, candidate_set.entries().dom()),
            ),
    {
        let ghost graph = self.composite_index@;
        let ghost all = candidate_set.entries().dom();
        let ghost between = graph::dag_range(graph, all, all);
        let filled = revset::collect_positions(connected_set.iter());
        let candidates = candidate_set.iter().collect_vec();
        proof {
            revset::lemma_entries_over_index(*candidate_set, self.composite_index);
            assert forall|i: int| 0 <= i < candidates@.len() implies (#[trigger] candidates@[i]).index
                == self.composite_index && candidates@[i].wf() by {
                iter::lemma_entry_map(candidates@, i);
            }
            assert(listed_positions(candidates@) =~= all);
            assert(candidates@.take(0) =~= Seq::empty());
        }
        let mut index_entries: Vec<IndexEntry<'index>> = Vec::new();
        for i in 0..candidates.len()
            invariant
                graph == self.composite_index@,
                graph::is_graph(graph),
                all == listed_positions(candidates@),
                between == graph::dag_range(graph, all, all),
                filled@ == between,
                iter::is_descending(candidates@),
                are_of_index(candidates@, self.composite_index),
                are_of_index(index_entries@, self.composite_index),
                iter::is_descending(index_entries@),
                forall|j: int|
                    0 <= j < index_entries@.len() && i < candidates@.len() ==> (
                    #[trigger] index_entries@[j]).pos.0 > candidates@[i as int].pos.0,
                forall|p: u32| #[trigger]
                    listed_positions(index_entries@).contains(p) <==> listed_positions(
                        candidates@.take(i as int),
                    ).contains(p) && graph::roots_of(graph, all).contains(p),
        {
            let candidate = candidates[i];
            let ghost p = candidate.pos.0;
            let ghost before = index_entries@;
            proof {
                assert(all.contains(p));
                graph::lemma_roots_by_parents(graph, all, p);
                lemma_parent_in(candidate, between);
                lemma_listed_push(before, candidate);
                lemma_listed_push(candidates@.take(i as int), candidate);
                assert(candidates@.take(i as int).push(candidate) =~= candidates@.take(i + 1));
            }
            if !iter::any_parent_in(&candidate, &filled) {
                index_entries.push(candidate);
            }
        }
        let set: EvaluatedRevset<'index> = InternalRevset::Eager(EagerRevset { index_entries });
        proof {
            assert(candidates@.take(candidates@.len() as int) =~= candidates@);
            assert forall|p: u32| #[trigger]
                set.entries().dom().contains(p) <==> graph::roots_of(graph, all).contains(p) by {
                assert(set.entries().dom().contains(p) <==> listed_positions(
                    index_entries@,
                ).contains(p));
            }
            assert(set.entries().dom() =~= graph::roots_of(graph, all));
        }
        set
    }
}

proof fn lemma_parent_in<'index>(entry: IndexEntry<'index>, set: Set<u32>)
    requires
        entry.wf(),
    ensures
        iter::has_parent_in(entry, set) <==> exists|parent: u32| #[trigger]
            set.contains(parent) && graph::is_parent(entry.index@, entry.pos.0, parent),
{
    if iter::has_parent_in(entry, set) {
        let parent = choose|parent: u32| #[trigger]
            set.contains(parent) && entry.commit().parents.contains(parent);
        assert(set.contains(parent) && graph::is_parent(entry.index@, entry.pos.0, parent));
    }
}

} // verus!
