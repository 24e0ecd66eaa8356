//! Laws of sets of entries, of their iteration and of the tests for membership.

use crate::eager;
use crate::engine;
use crate::engine::{EvaluatedRevset, EvaluationContext};
use crate::expression;
use crate::expression::RevsetExpression;
use crate::graph::IndexedCommit;
use crate::index;
use crate::index::{CompositeIndex, IndexEntry, IndexPosition};
use crate::iter;
use crate::iter::{
    ChildrenRevsetIterator, DifferenceRevsetIterator, EagerIterator, FilterRevsetIterator,
    Peekable, PredicateFn, RevsetIterator, UnionRevsetIterator,
};
use crate::latest;
use crate::latest::Item;
use crate::object_id::CommitId;
use crate::predicate;
use crate::predicate::{PredicateMatch, PredicateModel, PurePredicate};
use crate::revset;
use crate::revset::{
    ChildrenRevset, DifferenceRevset, EagerRevset, FilterPredicate, FilterRevset, InternalRevset,
    RevWalkRevset, UnionRevset,
};
use crate::revset_impl;
use crate::semantics;
use crate::walk;
use core::ops::Range;
use vstd::prelude::*;
use vstd::std_specs::cmp::PartialEqSpec;

verus! {

/// The range of all distances goes from nought to the greatest number.
pub proof fn law_full_range(generation: Range<u64>)
    ensures
        expression::is_full_range(generation) <==> generation.start == 0 && generation.end
            == u64::MAX,
{
}

/// A commit with one of the identifiers stands at one of their positions.
pub proof fn law_position_of_id(graph: Seq<IndexedCommit>, ids: Seq<CommitId>, p: u32, i: int)
    requires
        p < graph.len(),
        0 <= i < ids.len(),
        ids[i]@ == graph[p as int].commit_id,
    ensures
        index::positions_of(graph, ids).contains(p),
        index::is_indexed(graph, ids[i]@),
{
}

/// What stands at one of the positions of identifiers has one of them.
pub proof fn law_id_of_position(graph: Seq<IndexedCommit>, ids: Seq<CommitId>, p: u32) -> (i: int)
    requires
        index::positions_of(graph, ids).contains(p),
    ensures
        p < graph.len(),
        0 <= i < ids.len(),
        ids[i]@ == graph[p as int].commit_id,
{
    choose|i: int| 0 <= i < ids.len() && (#[trigger] ids[i])@ == graph[p as int].commit_id
}

/// An identifier that is indexed is that of a commit, and where all of some are, each is.
pub proof fn law_commit_with_id(graph: Seq<IndexedCommit>, ids: Seq<CommitId>, i: int) -> (p: int)
    requires
        index::are_indexed(graph, ids),
        0 <= i < ids.len(),
    ensures
        0 <= p < graph.len(),
        graph[p].commit_id == ids[i]@,
{
    assert(index::is_indexed(graph, ids[i]@));
    choose|p: int| 0 <= p < graph.len() && (#[trigger] graph[p]).commit_id == ids[i]@
}

/// The numbers of positions come in the order of the positions.
pub proof fn law_numbers_of_positions(positions: Seq<IndexPosition>, i: int)
    requires
        0 <= i < positions.len(),
    ensures
        index::position_numbers(positions).len() == positions.len(),
        index::position_numbers(positions)[i] == positions[i].0,
{
}

/// The entries of an index at positions are at just these, each at its own.
pub proof fn law_entries_at_positions<'index>(
    index: &'index CompositeIndex,
    positions: Set<u32>,
    p: u32,
)
    ensures
        index::entries_of(index, positions).dom().contains(p) <==> positions.contains(p),
        positions.contains(p) ==> {
            &&& index::entries_of(index, positions)[p].index == index
            &&& index::entries_of(index, positions)[p].pos.0 == p
        },
        index::entry_at(index, p).index == index,
        index::entry_at(index, p).pos.0 == p,
{
}

/// A step of an iterator yields what is to come at the highest position, after which just that is
/// not to come any more. Only where nothing is to come, it yields nothing.
pub proof fn law_step<'index>(
    before: Map<u32, IndexEntry<'index>>,
    entry: Option<IndexEntry<'index>>,
    after: Map<u32, IndexEntry<'index>>,
    p: u32,
)
    requires
        index::yields_next(before, entry, after),
    ensures
        entry is None ==> !before.dom().contains(p) && !after.dom().contains(p),
        entry matches Some(x) ==> {
            &&& before.dom().contains(x.pos.0)
            &&& before[x.pos.0] == x
            &&& before.dom().contains(p) ==> p <= x.pos.0
            &&& after.dom().contains(p) <==> before.dom().contains(p) && p != x.pos.0
            &&& after.dom().contains(p) ==> after[p] == before[p]
        },
{
}

/// A step of an iterator over identifiers yields that of the commit at the highest position.
pub proof fn law_step_to_commit<'index>(
    before: Map<u32, IndexEntry<'index>>,
    id: CommitId,
    after: Map<u32, IndexEntry<'index>>,
) -> (p: u32)
    requires
        revset_impl::yields_commit(before, Some(id), after),
    ensures
        before.dom().contains(p),
        before[p].index@[p as int].commit_id == id@,
        forall|q: u32| #[trigger] before.dom().contains(q) ==> q <= p,
        forall|q: u32| #[trigger] after.dom().contains(q) <==> before.dom().contains(q) && q != p,
{
    let entry = choose|entry: IndexEntry<'index>| #[trigger]
        index::yields_next(before, Some(entry), after) && entry.commit().commit_id == id@;
    entry.pos.0
}

/// A step of an iterator over identifiers yields nothing only where nothing is to come.
pub proof fn law_last_step<'index>(
    before: Map<u32, IndexEntry<'index>>,
    after: Map<u32, IndexEntry<'index>>,
    p: u32,
)
    requires
        revset_impl::yields_commit(before, None, after),
    ensures
        !before.dom().contains(p),
        !after.dom().contains(p),
{
}

/// Listed entries stand under their positions.
pub proof fn law_entry_is_listed<'index>(entries: Seq<IndexEntry<'index>>, i: int)
    requires
        iter::is_descending(entries),
        0 <= i < entries.len(),
    ensures
        iter::entry_map(entries).dom().contains(entries[i].pos.0),
        iter::entry_map(entries)[entries[i].pos.0] == entries[i],
        i + 1 < entries.len() ==> entries[i + 1].pos.0 < entries[i].pos.0,
{
    iter::lemma_entry_map(entries, i);
}

/// What stands under a position is one of the listed entries.
pub proof fn law_place_in_list<'index>(entries: Seq<IndexEntry<'index>>, p: u32) -> (i: int)
    requires
        iter::entry_map(entries).dom().contains(p),
    ensures
        0 <= i < entries.len(),
        entries[i].pos.0 == p,
{
    choose|i: int| 0 <= i < entries.len() && (#[trigger] entries[i]).pos.0 == p
}

/// The entries below a position are those at lower positions.
pub proof fn law_entries_below<'index>(entries: Map<u32, IndexEntry<'index>>, p: u32, q: u32)
    ensures
        iter::below(entries, p).dom().contains(q) <==> entries.dom().contains(q) && q < p,
        iter::below(entries, p).dom().contains(q) ==> iter::below(entries, p)[q] == entries[q],
{
}

/// An entry has a parent among positions if any of its parents, at whatever place in its list of
/// parents, is one of them.
pub proof fn law_any_parent_counts<'index>(entry: IndexEntry<'index>, positions: Set<u32>, k: int)
    requires
        0 <= k < entry.commit().parents.len(),
        positions.contains(entry.commit().parents[k]),
    ensures
        iter::has_parent_in(entry, positions),
{
    let parent = entry.commit().parents[k];
    assert(positions.contains(parent) && entry.commit().parents.contains(parent));
}

/// Of an entry that has a parent among positions one of the parents is among them.
pub proof fn law_parent_that_counts<'index>(entry: IndexEntry<'index>, positions: Set<u32>) -> (k:
    int)
    requires
        iter::has_parent_in(entry, positions),
    ensures
        0 <= k < entry.commit().parents.len(),
        positions.contains(entry.commit().parents[k]),
{
    let parent = choose|parent: u32| #[trigger]
        positions.contains(parent) && entry.commit().parents.contains(parent);
    let parents = entry.commit().parents;
    choose|k: int| 0 <= k < parents.len() && parents[k] == parent
}

/// What the commit of an entry is recorded as stands at its position in its index.
pub proof fn law_commit_of_entry<'index>(entry: IndexEntry<'index>)
    ensures
        entry.commit() == entry.index@[entry.pos.0 as int],
{
}

/// Entries count as the same where they stand at the same position.
pub proof fn law_same_entries<'index>(a: IndexEntry<'index>, b: IndexEntry<'index>)
    ensures
        a.eq_spec(&b) <==> a.pos.0 == b.pos.0,
{
}

/// A test that looks at one entry only matches it or not, and rules out no later match.
pub proof fn law_single_test(b: bool)
    ensures
        predicate::match_if(b) is Match <==> b,
        !(predicate::match_if(b) is NeverAgain),
{
}

/// Both tests match if each does, and never again if one of them never does again. One or the other
/// matches if one does, and never again if neither ever does. The first without the second matches
/// if the first does and the second does not, and never again if the first never does again.
pub proof fn law_combined_tests(first: PredicateMatch, second: PredicateMatch)
    ensures
        predicate::match_both(first, second) is Match <==> first is Match && second is Match,
        predicate::match_both(first, second) is NeverAgain <==> first is NeverAgain
            || second is NeverAgain,
        predicate::match_either(first, second) is Match <==> first is Match || second is Match,
        predicate::match_either(first, second) is NeverAgain <==> first is NeverAgain
            && second is NeverAgain,
        predicate::match_without(first, second) is Match <==> first is Match && !(
        second is Match),
        predicate::match_without(first, second) is NeverAgain <==> first is NeverAgain,
{
}

/// The test of a set matches what the set has, and says that it will never match again where the
/// set has nothing at that position or below. To ask about a position forgets it and all above.
pub proof fn law_test_of_positions<'index, P: PurePredicate<'index>>(
    set: Set<u32>,
    entry: IndexEntry<'index>,
    p: u32,
)
    ensures
        ({
            let model = PredicateModel::<P>::Members(set);
            &&& model.outcome(entry) is Match <==> set.contains(entry.pos.0)
            &&& model.outcome(entry) is NeverAgain && set.contains(p) ==> p > entry.pos.0
            &&& (forall|q: u32| #[trigger] set.contains(q) ==> q > entry.pos.0)
                ==> model.outcome(entry) is NeverAgain
            &&& model.advance(entry.pos.0) matches PredicateModel::Members(rest) && (rest.contains(
                p,
            ) <==> set.contains(p) && p < entry.pos.0)
        }),
{
    let model = PredicateModel::<P>::Members(set);
    if model.outcome(entry) is NeverAgain && set.contains(p) && p < entry.pos.0 {
        assert(predicate::has_below(set, entry.pos.0));
    }
    if forall|q: u32| #[trigger] set.contains(q) ==> q > entry.pos.0 {
        assert(!predicate::has_below(set, entry.pos.0));
    }
}

/// What a test of single entries and combined tests say of an entry.
pub proof fn law_tests_of_parts<'index, P: PurePredicate<'index>>(
    test: P,
    first: PredicateModel<P>,
    second: PredicateModel<P>,
    entry: IndexEntry<'index>,
)
    ensures
        PredicateModel::Pure(test).outcome(entry) == predicate::match_if(test.accepts(entry)),
        PredicateModel::And(Box::new(first), Box::new(second)).outcome(entry)
            == predicate::match_both(first.outcome(entry), second.outcome(entry)),
        PredicateModel::Or(Box::new(first), Box::new(second)).outcome(entry)
            == predicate::match_either(first.outcome(entry), second.outcome(entry)),
        PredicateModel::AndNot(Box::new(first), Box::new(second)).outcome(entry)
            == predicate::match_without(first.outcome(entry), second.outcome(entry)),
{
}

/// To ask about a position asks the tests that a combined test is made of, and does not change a
/// test of single entries.
pub proof fn law_tests_of_parts_advance<'index, P: PurePredicate<'index>>(
    test: P,
    first: PredicateModel<P>,
    second: PredicateModel<P>,
    p: u32,
)
    ensures
        PredicateModel::Pure(test).advance(p) == PredicateModel::Pure(test),
        PredicateModel::And(Box::new(first), Box::new(second)).advance(p) == PredicateModel::And(
            Box::new(first.advance(p)),
            Box::new(second.advance(p)),
        ),
        PredicateModel::Or(Box::new(first), Box::new(second)).advance(p) == PredicateModel::Or(
            Box::new(first.advance(p)),
            Box::new(second.advance(p)),
        ),
        PredicateModel::AndNot(Box::new(first), Box::new(second)).advance(p)
            == PredicateModel::AndNot(Box::new(first.advance(p)), Box::new(second.advance(p))),
{
}

/// A union has the entries of either set.
pub proof fn law_entries_of_union<'index, P: PurePredicate<'index>>(
    set: UnionRevset<'index, P>,
    p: u32,
)
    ensures
        set.entries().dom().contains(p) <==> set.set1.entries().dom().contains(p)
            || set.set2.entries().dom().contains(p),
        InternalRevset::Union(set).entries() == set.entries(),
{
}

/// A difference has the entries of the first set that the second does not have.
pub proof fn law_entries_of_difference<'index, P: PurePredicate<'index>>(
    set: DifferenceRevset<'index, P>,
    p: u32,
)
    ensures
        set.entries().dom().contains(p) <==> set.set1.entries().dom().contains(p)
            && !set.set2.entries().dom().contains(p),
        set.entries().dom().contains(p) ==> set.entries()[p] == set.set1.entries()[p],
        InternalRevset::Difference(set).entries() == set.entries(),
{
}

/// A filter has the candidates that its predicate matches.
pub proof fn law_entries_of_filter<'index, P: PurePredicate<'index>>(
    set: FilterRevset<'index, P>,
    p: u32,
)
    ensures
        set.entries().dom().contains(p) <==> {
            &&& set.candidates.entries().dom().contains(p)
            &&& set.predicate.predicate_model().outcome(set.candidates.entries()[p]) is Match
        },
        set.entries().dom().contains(p) ==> set.entries()[p] == set.candidates.entries()[p],
        InternalRevset::Filter(set).entries() == set.entries(),
{
}

/// A set of children has the candidates with a parent among the roots.
pub proof fn law_entries_of_children<'index, P: PurePredicate<'index>>(
    set: ChildrenRevset<'index, P>,
    p: u32,
)
    ensures
        set.entries().dom().contains(p) <==> {
            &&& set.candidate_set.entries().dom().contains(p)
            &&& iter::has_parent_in(
                set.candidate_set.entries()[p],
                set.root_set.entries().dom(),
            )
        },
        set.entries().dom().contains(p) ==> set.entries()[p] == set.candidate_set.entries()[p],
        InternalRevset::Children(set).entries() == set.entries(),
{
}

/// An eager set has its listed entries.
pub proof fn law_entries_of_eager<'index, P: PurePredicate<'index>>(set: EagerRevset<'index>)
    ensures
        set.entries() == iter::entry_map(set.index_entries@),
        InternalRevset::<P>::Eager(set).entries() == set.entries(),
{
}

/// Whether an iterator over a union or over a difference has an entry to come, by what its two
/// iterators have to come.
pub proof fn law_what_is_to_come<'a, 'index, P: PurePredicate<'index>>(
    union: UnionRevsetIterator<'a, 'index, P>,
    difference: DifferenceRevsetIterator<'a, 'index, P>,
    p: u32,
)
    ensures
        union.remaining().dom().contains(p) <==> union.iter1.remaining().dom().contains(p)
            || union.iter2.remaining().dom().contains(p),
        difference.remaining().dom().contains(p) <==> difference.iter1.remaining().dom().contains(p)
            && !difference.iter2.remaining().dom().contains(p),
{
}

/// A test of single entries keeps the candidates that it accepts, and the test for membership in a
/// set those that the set has.
pub proof fn law_kept_by_filter<'index, P: PurePredicate<'index>>(
    candidates: Box<InternalRevset<'index, P>>,
    test: P,
    wanted: Box<InternalRevset<'index, P>>,
    index: &'index CompositeIndex,
    p: u32,
)
    requires
        candidates.wf(),
        candidates.is_over(index),
        wanted.wf(),
        wanted.is_over(index),
    ensures
        ({
            let kept = FilterRevset { candidates, predicate: FilterPredicate::Pure(test) };
            kept.entries().dom().contains(p) <==> candidates.entries().dom().contains(p)
                && test.accepts(index::entry_at(index, p))
        }),
        ({
            let kept = FilterRevset { candidates, predicate: FilterPredicate::Revset(wanted) };
            kept.entries().dom().contains(p) <==> candidates.entries().dom().contains(p)
                && wanted.entries().dom().contains(p)
        }),
{
    revset::lemma_entries_over_index(*candidates, index);
    revset::law_predicate_is_membership(*wanted, index, p);
}

/// The set of a walk has the entries at the positions that the walk passes.
pub proof fn law_entries_of_walk<'index, P: PurePredicate<'index>>(
    set: RevWalkRevset<'index>,
    p: u32,
)
    ensures
        set.entries().dom().contains(p) <==> set.walk@.contains(p),
        InternalRevset::<P>::RevWalk(set).entries() == set.entries(),
{
}

/// Of a vector, the entries from the next on are to come.
pub proof fn law_what_is_to_come_of_vector<'a, 'index>(iter: EagerIterator<'a, 'index>, i: int)
    requires
        iter.wf(),
        0 <= i < iter.entries@.len(),
    ensures
        iter.remaining().dom().contains(iter.entries@[i].pos.0) <==> iter.next <= i,
        iter.next <= i ==> iter.remaining()[iter.entries@[i].pos.0] == iter.entries@[i],
{
    let rest = iter.entries@.skip(iter.next as int);
    if iter.next <= i {
        assert(rest[i - iter.next] == iter.entries@[i]);
        iter::lemma_entry_map(rest, i - iter.next);
    } else if iter.remaining().dom().contains(iter.entries@[i].pos.0) {
        let j = law_place_in_list(rest, iter.entries@[i].pos.0);
        assert(rest[j] == iter.entries@[j + iter.next]);
    }
}

/// What is to come of the iterators over children and over filtered candidates are the candidates
/// to come with a parent among the roots, and those that the predicate matches.
pub proof fn law_what_is_to_come_of_candidates<'a, 'index, P: PurePredicate<'index>>(
    children: ChildrenRevsetIterator<'a, 'index, P>,
    filtered: FilterRevsetIterator<'a, 'index, P>,
    p: u32,
)
    ensures
        children.remaining().dom().contains(p) <==> {
            &&& children.candidates_iter.remaining().dom().contains(p)
            &&& iter::has_parent_in(children.candidates_iter.remaining()[p], children.roots@)
        },
        filtered.remaining().dom().contains(p) <==> {
            &&& filtered.candidates_iter.remaining().dom().contains(p)
            &&& filtered.predicate.model().outcome(
                filtered.candidates_iter.remaining()[p],
            ) is Match
        },
{
}

/// To have looked at the next entry does not take it away from what is to come.
pub proof fn law_looked_at<'a, 'index, P: PurePredicate<'index>>(
    iter: Peekable<'a, 'index, P>,
    p: u32,
)
    ensures
        iter.remaining().dom().contains(p) <==> {
            ||| iter.iter.remaining().dom().contains(p)
            ||| iter.peeked matches Some(Some(entry)) && entry.pos.0 == p
        },
{
}

/// What is to come of an iterator is what is to come of the one that it consists of.
pub proof fn law_what_is_to_come_of_any<'a, 'index, P: PurePredicate<'index>>(
    iter: RevsetIterator<'a, 'index, P>,
)
    ensures
        match iter {
            RevsetIterator::Eager(inner) => iter.remaining() == inner.remaining(),
            RevsetIterator::RevWalk(inner) => iter.remaining() == inner@,
            RevsetIterator::Children(inner) => iter.remaining() == inner.remaining(),
            RevsetIterator::Filter(inner) => iter.remaining() == inner.remaining(),
            RevsetIterator::Union(inner) => iter.remaining() == inner.remaining(),
            RevsetIterator::Difference(inner) => iter.remaining() == inner.remaining(),
        },
{
}

/// What a predicate says of an entry, by what it is made of: what an iterator has to come, a test
/// of single entries, or other predicates.
pub proof fn law_what_a_predicate_says<'a, 'index, P: PurePredicate<'index>>(
    predicate: PredicateFn<'a, 'index, P>,
    entry: IndexEntry<'index>,
)
    ensures
        ({
            let matches = predicate.model().outcome(entry) is Match;
            match predicate {
                PredicateFn::FromIter(iter) => matches <==> iter.remaining().dom().contains(
                    entry.pos.0,
                ),
                PredicateFn::Pure(test) => matches <==> test.accepts(entry),
                PredicateFn::And(first, second) => matches <==> first.model().outcome(
                    entry,
                ) is Match && second.model().outcome(entry) is Match,
                PredicateFn::Or(first, second) => matches <==> first.model().outcome(
                    entry,
                ) is Match || second.model().outcome(entry) is Match,
                PredicateFn::AndNot(first, second) => matches <==> first.model().outcome(
                    entry,
                ) is Match && !(second.model().outcome(entry) is Match),
            }
        }),
{
}

/// What a context stands for: the visible commits are given by the identifiers of their heads.
pub proof fn law_meaning_in_context<'index, 'heads>(
    context: EvaluationContext<'index, 'heads>,
    expression: &RevsetExpression,
)
    ensures
        context.denotation(expression) == semantics::denotation(
            context.store,
            context.composite_index@,
            index::positions_of(context.composite_index@, context.visible_heads@),
            expression,
        ),
        context.heads_indexed() <==> index::are_indexed(
            context.composite_index@,
            context.visible_heads@,
        ),
{
}

/// A set of the commits of an index at positions has an entry at each of these, that of the index,
/// and no other entries.
pub proof fn law_set_of_positions<'index>(
    set: EvaluatedRevset<'index>,
    index: &'index CompositeIndex,
    positions: Set<u32>,
    p: u32,
)
    requires
        engine::is_set_of(set, index, positions),
    ensures
        set.entries().dom().contains(p) <==> positions.contains(p),
        positions.contains(p) ==> set.entries()[p].index == index && set.entries()[p].pos.0 == p,
{
    revset::lemma_entries_over_index(set, index);
}

/// Each listed entry, position or mark counts.
pub proof fn law_listed<'index>(
    entries: Seq<IndexEntry<'index>>,
    positions: Seq<IndexPosition>,
    marks: Seq<bool>,
    i: int,
)
    ensures
        0 <= i < entries.len() ==> eager::listed_positions(entries).contains(entries[i].pos.0),
        0 <= i < positions.len() ==> walk::position_set(positions).contains(positions[i].0),
        0 <= i <= u32::MAX ==> (walk::marked_set(marks).contains(i as u32) <==> i < marks.len()
            && marks[i]),
{
}

/// Only the positions of listed entries are listed.
pub proof fn law_place_of_listed_entry<'index>(entries: Seq<IndexEntry<'index>>, p: u32) -> (i: int)
    requires
        eager::listed_positions(entries).contains(p),
    ensures
        0 <= i < entries.len(),
        entries[i].pos.0 == p,
{
    choose|i: int| 0 <= i < entries.len() && (#[trigger] entries[i]).pos.0 == p
}

/// Only listed positions are in the set of the listed positions.
pub proof fn law_place_of_listed_position(positions: Seq<IndexPosition>, p: u32) -> (i: int)
    requires
        walk::position_set(positions).contains(p),
    ensures
        0 <= i < positions.len(),
        positions[i].0 == p,
{
    choose|i: int| 0 <= i < positions.len() && (#[trigger] positions[i]).0 == p
}

/// Where no two commits have the same identifier, the position of an identifier is that of the
/// commit that has it.
pub proof fn law_position_of_commit(graph: Seq<IndexedCommit>, p: int)
    requires
        graph.len() <= u32::MAX,
        0 <= p < graph.len(),
        forall|i: int, j: int|
            #![trigger graph[i], graph[j]]
            0 <= i < j < graph.len() ==> graph[i].commit_id != graph[j].commit_id,
    ensures
        index::position_of(graph, graph[p].commit_id) == p,
{
    let id = graph[p].commit_id;
    let q = choose|q: int| 0 <= q < graph.len() && (#[trigger] graph[q]).commit_id == id;
    assert(graph[q].commit_id == graph[p].commit_id);
    assert(q == p);
}

/// In a run of an iterator over identifiers each identifier is that of the commit at the highest
/// position that is then to come, and nothing is to come at the end.
pub proof fn law_run<'index>(
    states: Seq<Map<u32, IndexEntry<'index>>>,
    ids: Seq<CommitId>,
    i: int,
) -> (p: u32)
    requires
        revset_impl::is_run(states, ids),
        0 <= i < ids.len(),
    ensures
        states[i].dom().contains(p),
        states[i][p].index@[p as int].commit_id == ids[i]@,
        forall|q: u32| #[trigger] states[i].dom().contains(q) ==> q <= p,
        forall|q: u32| #[trigger]
            states[i + 1].dom().contains(q) <==> states[i].dom().contains(q) && q != p,
        states[ids.len() as int].dom().is_empty(),
{
    assert(revset_impl::yields_commit(states[i], Some(ids[i]), states[i + 1]));
    assert forall|q: u32| !states[ids.len() as int].dom().contains(q) by {
        law_last_step(states.last(), states.last(), q);
    }
    law_step_to_commit(states[i], ids[i], states[i + 1])
}

/// A step over the nodes of a graph yields the commit at the highest position with edges that were
/// found for it.
pub proof fn law_step_to_node<'index, E, F: Fn(&IndexEntry<'index>) -> Vec<E>>(
    edges_of: F,
    before: Map<u32, IndexEntry<'index>>,
    id: CommitId,
    edges: Vec<E>,
    after: Map<u32, IndexEntry<'index>>,
) -> (p: u32)
    requires
        revset_impl::yields_node(edges_of, before, Some((id, edges)), after),
    ensures
        before.dom().contains(p),
        before[p].index@[p as int].commit_id == id@,
        call_ensures(edges_of, (&before[p],), edges),
        forall|q: u32| #[trigger] before.dom().contains(q) ==> q <= p,
        forall|q: u32| #[trigger] after.dom().contains(q) <==> before.dom().contains(q) && q != p,
{
    let entry = choose|entry: IndexEntry<'index>| #[trigger]
        index::yields_next(before, Some(entry), after) && entry.commit().commit_id == id@
            && call_ensures(edges_of, (&entry,), edges);
    entry.pos.0
}

/// A step over the nodes of a graph yields nothing only where nothing is to come.
pub proof fn law_last_node<'index, E, F: Fn(&IndexEntry<'index>) -> Vec<E>>(
    edges_of: F,
    before: Map<u32, IndexEntry<'index>>,
    after: Map<u32, IndexEntry<'index>>,
    p: u32,
)
    requires
        revset_impl::yields_node::<E, F>(edges_of, before, None, after),
    ensures
        !before.dom().contains(p),
        !after.dom().contains(p),
{
}

/// An item is earlier than another by its time, and by its position where the times are the same.
pub proof fn law_earlier_items<'index>(a: Item<'index>, b: Item<'index>)
    ensures
        a.timestamp.0 < b.timestamp.0 ==> latest::is_earlier(a, b) && !latest::is_earlier(b, a),
        a.timestamp.0 == b.timestamp.0 ==> (latest::is_earlier(a, b) <==> a.entry.pos.0
            < b.entry.pos.0),
{
}

} // verus!
