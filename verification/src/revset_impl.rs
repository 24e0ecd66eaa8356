//! The evaluation of an expression, and what can be done with the set that it gives.

use crate::change_id_index::ChangeIdIndexImpl;
use crate::engine::{EvaluatedRevset, EvaluationContext};
use crate::expression::{RevsetError, RevsetExpression};
use crate::filter::PurePredicateFn;
use crate::graph;
use crate::index;
use crate::index::{CompositeIndex, IndexEntry};
use crate::iter;
use crate::iter::RevsetIterator;
use crate::object_id::CommitId;
use crate::revset;
use crate::semantics;
use crate::store::Store;
use vstd::prelude::*;

verus! {

/// An evaluated set of commits.
pub struct RevsetImpl<'index> {
    inner: EvaluatedRevset<'index>,
    index: &'index CompositeIndex,
}

impl<'index> View for RevsetImpl<'index> {
    type V = Set<u32>;

    /// The positions of the commits.
    closed spec fn view(&self) -> Set<u32> {
        self.inner.entries().dom()
    }
}

/// What a step of an iterator over identifiers does: while there are commits to come, it yields
/// the identifier of the one at the highest position, which then is not to come any more.
pub open spec fn yields_commit<'index>(
    before: Map<u32, IndexEntry<'index>>,
    id: Option<CommitId>,
    after: Map<u32, IndexEntry<'index>>,
) -> bool {
    match id {
        None => index::yields_next(before, None, after),
        Some(id) => exists|entry: IndexEntry<'index>| #[trigger]
            index::yields_next(before, Some(entry), after) && entry.commit().commit_id == id@,
    }
}

/// The identifiers of the commits of a set, in descending order of position.
pub struct CommitIdIterator<'revset, 'index> {
    iter: RevsetIterator<'revset, 'index, PurePredicateFn<'index>>,
}

impl<'revset, 'index> View for CommitIdIterator<'revset, 'index> {
    type V = Map<u32, IndexEntry<'index>>;

    /// The commits that are still to come.
    closed spec fn view(&self) -> Map<u32, IndexEntry<'index>> {
        self.iter.remaining()
    }
}

impl<'revset, 'index> CommitIdIterator<'revset, 'index> {
    pub closed spec fn wf(&self) -> bool {
        self.iter.wf()
    }

    /// The identifier of the next commit.
    pub fn next(&mut self) -> (id: Option<CommitId>)
        requires
            old(self).wf(),
        ensures
            final(self).wf(),
            yields_commit(old(self)@, id, final(self)@),
    {
        proof {
            iter::lemma_remaining_are_entries(self.iter);
        }
        match self.iter.next() {
            Some(entry) => Some(entry.commit_id()),
            None => None,
        }
    }
}

/// What a step over the nodes of a graph does: while there are commits to come, it yields the
/// identifier of the one at the highest position, with edges that `edges_of` gives for it.
pub open spec fn yields_node<'index, E, F: Fn(&IndexEntry<'index>) -> Vec<E>>(
    edges_of: F,
    before: Map<u32, IndexEntry<'index>>,
    node: Option<(CommitId, Vec<E>)>,
    after: Map<u32, IndexEntry<'index>>,
) -> bool {
    match node {
        None => index::yields_next(before, None, after),
        Some((id, edges)) => exists|entry: IndexEntry<'index>| #[trigger]
            index::yields_next(before, Some(entry), after) && entry.commit().commit_id == id@
                && call_ensures(edges_of, (&entry,), edges),
    }
}

/// Whether `edges_of` can be called for each of the commits.
pub open spec fn can_find_edges<'index, E, F: Fn(&IndexEntry<'index>) -> Vec<E>>(
    edges_of: F,
    entries: Map<u32, IndexEntry<'index>>,
) -> bool {
    forall|p: u32| #[trigger]
        entries.dom().contains(p) ==> call_requires(edges_of, (&entries[p],))
}

/// The commits of a set as nodes of the graph of commits, children before their parents, each with
/// its edges to others. Finding the edges of a commit is left to a function, `edges_of`.
pub struct RevsetGraphIterator<'revset, 'index, F> {
    input_set_iter: RevsetIterator<'revset, 'index, PurePredicateFn<'index>>,
    edges_of: F,
}

impl<'revset, 'index, F> View for RevsetGraphIterator<'revset, 'index, F> {
    type V = Map<u32, IndexEntry<'index>>;

    /// The nodes that are still to come.
    closed spec fn view(&self) -> Map<u32, IndexEntry<'index>> {
        self.input_set_iter.remaining()
    }
}

impl<'revset, 'index, F> RevsetGraphIterator<'revset, 'index, F> {
    pub closed spec fn wf(&self) -> bool {
        self.input_set_iter.wf()
    }

    /// What finds the edges.
    pub closed spec fn edge_finder(&self) -> F {
        self.edges_of
    }

    /// The nodes that the iterator yields.
    pub fn new(
        input_set_iter: RevsetIterator<'revset, 'index, PurePredicateFn<'index>>,
        edges_of: F,
    ) -> (iter: Self)
        requires
            input_set_iter.wf(),
        ensures
            iter.wf(),
            iter@ == input_set_iter.remaining(),
            iter.edge_finder() == edges_of,
    {
        RevsetGraphIterator { input_set_iter, edges_of }
    }

    /// The identifier of the next node, and its edges.
    pub fn next<E>(&mut self) -> (node: Option<(CommitId, Vec<E>)>) where
        F: Fn(&IndexEntry<'index>) -> Vec<E>,

        requires
            old(self).wf(),
            can_find_edges(old(self).edge_finder(), old(self)@),
        ensures
            final(self).wf(),
            final(self).edge_finder() == old(self).edge_finder(),
            can_find_edges(final(self).edge_finder(), final(self)@),
            yields_node(old(self).edge_finder(), old(self)@, node, final(self)@),
    {
        let ghost before = self@;
        proof {
            iter::lemma_remaining_are_entries(self.input_set_iter);
        }
        match self.input_set_iter.next() {
            Some(entry) => {
                assert(before.dom().contains(entry.pos.0));
                let edges = (self.edges_of)(&entry);
                Some((entry.commit_id(), edges))
            },
            None => None,
        }
    }
}

impl<'index> RevsetImpl<'index> {
    #[verifier::type_invariant]
    spec fn inv(self) -> bool {
        &&& self.index.wf()
        &&& self.inner.wf()
        &&& self.inner.is_over(self.index)
    }

    /// The index that the commits are of.
    pub closed spec fn of_index(&self) -> &'index CompositeIndex {
        self.index
    }

    /// Whether the commits can be gone through: where it depends on what is stored of commits
    /// whether they are in the set, these are stored.
    pub closed spec fn is_iterable(&self) -> bool {
        self.inner.is_iterable()
    }

    /// The commits of a set over the index.
    pub fn new(revset: EvaluatedRevset<'index>, index: &'index CompositeIndex) -> (set: Self)
        requires
            index.wf(),
            revset.wf(),
            revset.is_over(index),
        ensures
            set.of_index() == index,
            set@ == revset.entries().dom(),
            set.is_iterable() == revset.is_iterable(),
    {
        RevsetImpl { inner: revset, index }
    }

    /// The commits as nodes of the graph, with the edges that `edges_of` finds.
    pub fn iter_graph_impl<'revset, F>(&'revset self, edges_of: F) -> (iter: RevsetGraphIterator<
        'revset,
        'index,
        F,
    >)
        requires
            self.is_iterable(),
        ensures
            iter.wf(),
            iter@ == index::entries_of(self.of_index(), self@),
            iter.edge_finder() == edges_of,
    {
        proof {
            use_type_invariant(self);
            revset::lemma_entries_over_index(self.inner, self.index);
        }
        RevsetGraphIterator::new(self.inner.iter(), edges_of)
    }

    /// The commits as nodes of the graph, with the edges that `edges_of` finds.
    pub fn iter_graph<'revset, F>(&'revset self, edges_of: F) -> (iter: RevsetGraphIterator<
        'revset,
        'index,
        F,
    >)
        requires
            self.is_iterable(),
        ensures
            iter.wf(),
            iter@ == index::entries_of(self.of_index(), self@),
            iter.edge_finder() == edges_of,
    {
        self.iter_graph_impl(edges_of)
    }

    /// The identifiers of the commits, in descending order of position.
    pub fn iter<'revset>(&'revset self) -> (iter: CommitIdIterator<'revset, 'index>)
        requires
            self.is_iterable(),
        ensures
            iter.wf(),
            iter@ == index::entries_of(self.of_index(), self@),
    {
        proof {
            use_type_invariant(self);
            revset::lemma_entries_over_index(self.inner, self.index);
        }
        CommitIdIterator { iter: self.inner.iter() }
    }

    /// The commits, by the identifier of their change.
    pub fn change_id_index(&self) -> (changes: ChangeIdIndexImpl<'index>)
        requires
            self.is_iterable(),
        ensures
            changes.graph() == self.of_index()@,
            changes@ == self@,
    {
        proof {
            use_type_invariant(self);
            revset::lemma_entries_over_index(self.inner, self.index);
        }
        let entries = self.inner.iter().collect_vec();
        proof {
            assert forall|i: int| 0 <= i < entries@.len() implies (#[trigger] entries@[i]).index
                == self.index by {
                iter::lemma_entry_map(entries@, i);
            }
        }
        ChangeIdIndexImpl::new(self.index, &entries)
    }

    /// Whether there are no commits.
    pub fn is_empty(&self) -> (empty: bool)
        requires
            self.is_iterable(),
        ensures
            empty == self@.is_empty(),
    {
        let mut iter = self.iter();
        let ghost all = iter@;
        assert(all.dom() =~= self@);
        let first = iter.next();
        proof {
            if let Some(id) = &first {
                let entry = choose|entry: IndexEntry<'index>| #[trigger]
                    index::yields_next(all, Some(entry), iter@) && entry.commit().commit_id == id@;
                assert(all.dom().contains(entry.pos.0));
            }
        }
        first.is_none()
    }
}

/// The commits that the expression stands for, where `visible_heads` are the visible heads.
pub fn evaluate<'index>(
    expression: &RevsetExpression,
    store: &'index Store,
    composite_index: &'index CompositeIndex,
    visible_heads: &[CommitId],
) -> (result: Result<RevsetImpl<'index>, RevsetError>)
    requires
        composite_index.wf(),
        semantics::is_evaluable(
            store,
            composite_index@,
            index::positions_of(composite_index@, visible_heads@),
            index::are_indexed(composite_index@, visible_heads@),
            expression,
        ),
    ensures
        result matches Ok(set) && {
            let visible = index::positions_of(composite_index@, visible_heads@);
            &&& set.of_index() == composite_index
            &&& set@ == semantics::denotation(store, composite_index@, visible, expression)
            &&& semantics::is_listable(store, composite_index@, visible, expression)
                ==> set.is_iterable()
        },
{
    let context = EvaluationContext { store, composite_index, visible_heads };
    let internal_revset = context.evaluate(expression)?;
    Ok(RevsetImpl::new(internal_revset, composite_index))
}

/// The identifiers that an iterator yields from its first state to the end, with the states that it
/// goes through: `ids[i]` comes in the step from `states[i]` to the next.
pub open spec fn is_run<'index>(
    states: Seq<Map<u32, IndexEntry<'index>>>,
    ids: Seq<CommitId>,
) -> bool {
    &&& states.len() == ids.len() + 1
    &&& forall|i: int|
        0 <= i < ids.len() ==> yields_commit(states[i], Some(#[trigger] ids[i]), states[i + 1])
    &&& yields_commit(states.last(), None, states.last())
}

/// The entries whose identifiers come in a run.
proof fn lemma_entries_of_run<'index>(
    states: Seq<Map<u32, IndexEntry<'index>>>,
    ids: Seq<CommitId>,
) -> (entries: Seq<IndexEntry<'index>>)
    requires
        is_run(states, ids),
        index::are_entries(states[0]),
    ensures
        iter::is_descending(entries),
        iter::entry_map(entries) == states[0],
        entries.len() == ids.len(),
        forall|i: int|
            0 <= i < ids.len() ==> (#[trigger] ids[i])@ == entries[i].commit().commit_id,
    decreases ids.len(),
{
    if ids.len() == 0 {
        let entries = Seq::<IndexEntry<'index>>::empty();
        assert(iter::entry_map(entries) =~= states[0]);
        entries
    } else {
        assert(yields_commit(states[0], Some(ids[0]), states[1]));
        let first = choose|entry: IndexEntry<'index>| #[trigger]
            index::yields_next(states[0], Some(entry), states[1]) && entry.commit().commit_id
                == ids[0]@;
        let p = first.pos.0;
        let later_states = states.skip(1);
        let later_ids = ids.skip(1);
        assert forall|i: int| 0 <= i < later_ids.len() implies yields_commit(
            later_states[i],
            Some(#[trigger] later_ids[i]),
            later_states[i + 1],
        ) by {
            assert(later_ids[i] == ids[i + 1]);
        }
        let later = lemma_entries_of_run(later_states, later_ids);
        let entries = seq![first] + later;
        assert(entries.skip(1) =~= later);
        assert forall|i: int| 0 <= i < later.len() implies (#[trigger] later[i]).pos.0 < p by {
            iter::lemma_entry_map(later, i);
            assert(states[1].dom().contains(later[i].pos.0));
            assert(states[0].dom().contains(later[i].pos.0));
        }
        assert(states[0].dom().contains(p));
        assert(iter::is_descending(entries)) by {
            assert forall|i: int, j: int| 0 <= i < j < entries.len() implies (
            #[trigger] entries[j]).pos.0 < (#[trigger] entries[i]).pos.0 by {
                assert(entries[j] == later[j - 1]);
            }
        }
        iter::lemma_entry_map(entries, 0);
        iter::lemma_entry_map_step(entries);
        assert(iter::entry_map(entries) =~= states[0].remove(p).insert(p, first));
        assert(iter::entry_map(entries) =~= states[0]);
        assert forall|i: int| 0 <= i < ids.len() implies (#[trigger] ids[i])@
            == entries[i].commit().commit_id by {
            if i > 0 {
                assert(ids[i] == later_ids[i - 1]);
            }
        }
        entries
    }
}

/// The identifiers that the set of an expression yields from its start to the end are those of the
/// commits that the expression stands for, each once and none else. They come in descending order
/// of position, so that each commit comes before all of its ancestors, and in the order in which
/// the entries of the set are collected, here `entries`. Nothing comes if and only if the set is
/// empty.
pub proof fn law_iteration_of_evaluated<'index>(
    store: &Store,
    index: &'index CompositeIndex,
    visible_heads: Seq<CommitId>,
    expression: &RevsetExpression,
    states: Seq<Map<u32, IndexEntry<'index>>>,
    ids: Seq<CommitId>,
    entries: Seq<IndexEntry<'index>>,
)
    requires
        index.wf(),
        is_run(states, ids),
        ({
            let visible = index::positions_of(index@, visible_heads);
            let set = semantics::denotation(store, index@, visible, expression);
            &&& states[0] == index::entries_of(index, set)
            &&& iter::is_descending(entries)
            &&& iter::entry_map(entries) == index::entries_of(index, set)
        }),
    ensures
        ({
            let visible = index::positions_of(index@, visible_heads);
            let set = semantics::denotation(store, index@, visible, expression);
            &&& ids.len() == set.len()
            &&& index::are_indexed(index@, ids)
            &&& index::positions_of(index@, ids) == set
            &&& forall|i: int, j: int|
                #![trigger ids[i], ids[j]]
                0 <= i < j < ids.len() ==> index::position_of(index@, ids[j]@) < index::position_of(
                    index@,
                    ids[i]@,
                )
            &&& forall|i: int, j: int|
                #![trigger ids[i], ids[j]]
                0 <= i < ids.len() && 0 <= j < ids.len() && i != j && graph::is_ancestor(
                    index@,
                    index::position_of(index@, ids[j]@),
                    index::position_of(index@, ids[i]@),
                ) ==> i < j
            &&& entries.len() == ids.len()
            &&& forall|i: int|
                0 <= i < ids.len() ==> (#[trigger] ids[i])@ == entries[i].commit().commit_id
            &&& set.is_empty() <==> ids.len() == 0
        }),
{
    let graph = index@;
    let visible = index::positions_of(graph, visible_heads);
    let set = semantics::denotation(store, graph, visible, expression);
    semantics::lemma_denotation_in_graph(store, graph, visible, expression);
    let found = lemma_entries_of_run(states, ids);
    iter::law_one_descending_order(found, entries);
    let numbers = entries.map_values(|entry: IndexEntry<'index>| entry.pos.0);
    assert forall|i: int| 0 <= i < entries.len() implies {
        &&& (#[trigger] numbers[i]) < graph.len()
        &&& set.contains(numbers[i])
        &&& ids[i]@ == graph[numbers[i] as int].commit_id
        &&& index::position_of(graph, ids[i]@) == numbers[i]
    } by {
        iter::lemma_entry_map(entries, i);
        assert(entries[i] == index::entry_at(index, numbers[i]));
        assert(ids[i]@ == entries[i].commit().commit_id);
        index::lemma_position_of(graph, ids[i]@, numbers[i] as int);
    }
    index::lemma_ids_of_positions(graph, ids, numbers);
    assert forall|p: u32| #[trigger] set.contains(p) <==> numbers.contains(p) by {
        if set.contains(p) {
            assert(iter::entry_map(entries).dom().contains(p));
            let i = choose|i: int| 0 <= i < entries.len() && (#[trigger] entries[i]).pos.0 == p;
            assert(numbers[i] == p);
        }
        if numbers.contains(p) {
            let i = choose|i: int| 0 <= i < numbers.len() && numbers[i] == p;
            assert(set.contains(numbers[i]));
        }
    }
    assert(index::positions_of(graph, ids) =~= set);
    assert forall|i: int, j: int|
        #![trigger ids[i], ids[j]]
        0 <= i < j < ids.len() implies index::position_of(graph, ids[j]@) < index::position_of(
        graph,
        ids[i]@,
    ) by {
        assert(entries[j].pos.0 < entries[i].pos.0);
        assert(numbers[i] == entries[i].pos.0 && numbers[j] == entries[j].pos.0);
    }
    assert(numbers.no_duplicates()) by {
        assert forall|i: int, j: int|
            0 <= i < numbers.len() && 0 <= j < numbers.len() && i != j implies numbers[i]
            != numbers[j] by {
            if i < j {
                assert(entries[j].pos.0 < entries[i].pos.0);
            } else {
                assert(entries[i].pos.0 < entries[j].pos.0);
            }
        }
    }
    numbers.unique_seq_to_set();
    assert(numbers.to_set() =~= set);
    assert forall|i: int, j: int|
        #![trigger ids[i], ids[j]]
        0 <= i < ids.len() && 0 <= j < ids.len() && i != j && graph::is_ancestor(
            graph,
            index::position_of(graph, ids[j]@),
            index::position_of(graph, ids[i]@),
        ) implies i < j by {
        assert(numbers[i] != numbers[j]);
        graph::lemma_ancestor_step(graph, numbers[j], numbers[i]);
        if j < i {
            assert(entries[i].pos.0 < entries[j].pos.0);
        }
    }
    if ids.len() > 0 {
        assert(set.contains(numbers[0]));
    } else if !set.is_empty() {
        let p = set.choose();
        assert(numbers.contains(p));
    }
}

} // verus!
