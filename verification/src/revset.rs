//! Sets of commits, which iterate in descending order of position and test membership.

use crate::index;
use crate::index::{CompositeIndex, IndexEntry};
use crate::iter;
use crate::iter::{
    ChildrenRevsetIterator, DifferenceRevsetIterator, EagerIterator, FilterRevsetIterator,
    Peekable, PredicateFn, RevsetIterator, UnionRevsetIterator,
};
use crate::predicate;
use crate::predicate::{PredicateModel, PurePredicate};
use crate::walk::RevWalk;
use std::collections::HashSet;
use vstd::prelude::*;

verus! {

broadcast use vstd::std_specs::hash::group_hash_axioms;

/// The entries of a vector.
pub struct EagerRevset<'index> {
    pub index_entries: Vec<IndexEntry<'index>>,
}

/// The entries of a walk.
pub struct RevWalkRevset<'index> {
    pub walk: RevWalk<'index>,
}

/// The candidates that have a parent among the roots.
pub struct ChildrenRevset<'index, P> {
    /// The revisions we want to find children for
    pub root_set: Box<InternalRevset<'index, P>>,
    /// Consider only candidates from this set
    pub candidate_set: Box<InternalRevset<'index, P>>,
}

/// What picks among the candidates of a filter.
pub enum FilterPredicate<'index, P> {
    /// To be in the set.
    Revset(Box<InternalRevset<'index, P>>),
    /// To be accepted by the predicate.
    Pure(P),
}

/// The candidates that a predicate matches.
pub struct FilterRevset<'index, P> {
    pub candidates: Box<InternalRevset<'index, P>>,
    pub predicate: FilterPredicate<'index, P>,
}

/// The entries of either set.
pub struct UnionRevset<'index, P> {
    pub set1: Box<InternalRevset<'index, P>>,
    pub set2: Box<InternalRevset<'index, P>>,
}

/// The entries of one set that are not in the other.
pub struct DifferenceRevset<'index, P> {
    /// The minuend (what to subtract from)
    pub set1: Box<InternalRevset<'index, P>>,
    /// The subtrahend (what to subtract)
    pub set2: Box<InternalRevset<'index, P>>,
}

/// A set of commits.
pub enum InternalRevset<'index, P> {
    Eager(EagerRevset<'index>),
    RevWalk(RevWalkRevset<'index>),
    Children(ChildrenRevset<'index, P>),
    Filter(FilterRevset<'index, P>),
    Union(UnionRevset<'index, P>),
    Difference(DifferenceRevset<'index, P>),
}

impl<'index> EagerRevset<'index> {
    /// The entries, by position.
    pub open spec fn entries(self) -> Map<u32, IndexEntry<'index>> {
        iter::entry_map(self.index_entries@)
    }

    pub open spec fn wf(self) -> bool {
        iter::is_descending(self.index_entries@)
    }
}

impl<'index> RevWalkRevset<'index> {
    /// The entries, by position.
    pub open spec fn entries(self) -> Map<u32, IndexEntry<'index>> {
        index::entries_of(self.walk.walked_index(), self.walk@)
    }

    pub open spec fn wf(self) -> bool {
        self.walk.wf()
    }
}

impl<'index, P: PurePredicate<'index>> ChildrenRevset<'index, P> {
    /// The entries, by position.
    pub open spec fn entries(self) -> Map<u32, IndexEntry<'index>>
        decreases self,
    {
        iter::select_children(self.candidate_set.entries(), self.root_set.entries().dom())
    }

    pub open spec fn wf(self) -> bool
        decreases self,
    {
        self.root_set.wf() && self.candidate_set.wf()
    }
}

impl<'index, P: PurePredicate<'index>> FilterPredicate<'index, P> {
    /// What the predicate says of entries.
    pub open spec fn predicate_model(self) -> PredicateModel<P>
        decreases self,
    {
        match self {
            FilterPredicate::Revset(set) => set.predicate_model(),
            FilterPredicate::Pure(test) => PredicateModel::Pure(test),
        }
    }

    pub open spec fn wf(self) -> bool
        decreases self,
    {
        match self {
            FilterPredicate::Revset(set) => set.wf(),
            FilterPredicate::Pure(_) => true,
        }
    }
}

impl<'index, P: PurePredicate<'index>> FilterRevset<'index, P> {
    /// The entries, by position.
    pub open spec fn entries(self) -> Map<u32, IndexEntry<'index>>
        decreases self,
    {
        iter::select_matching(self.candidates.entries(), self.predicate.predicate_model())
    }

    pub open spec fn wf(self) -> bool
        decreases self,
    {
        self.candidates.wf() && self.predicate.wf()
    }
}

impl<'index, P: PurePredicate<'index>> UnionRevset<'index, P> {
    /// The entries, by position.
    pub open spec fn entries(self) -> Map<u32, IndexEntry<'index>>
        decreases self,
    {
        self.set1.entries().union_prefer_right(self.set2.entries())
    }

    pub open spec fn wf(self) -> bool
        decreases self,
    {
        self.set1.wf() && self.set2.wf()
    }
}

impl<'index, P: PurePredicate<'index>> DifferenceRevset<'index, P> {
    /// The entries, by position.
    pub open spec fn entries(self) -> Map<u32, IndexEntry<'index>>
        decreases self,
    {
        self.set1.entries().remove_keys(self.set2.entries().dom())
    }

    pub open spec fn wf(self) -> bool
        decreases self,
    {
        self.set1.wf() && self.set2.wf()
    }
}

impl<'index, P: PurePredicate<'index>> InternalRevset<'index, P> {
    /// The entries, by position.
    pub open spec fn entries(self) -> Map<u32, IndexEntry<'index>>
        decreases self,
    {
        match self {
            InternalRevset::Eager(set) => set.entries(),
            InternalRevset::RevWalk(set) => set.entries(),
            InternalRevset::Children(set) => set.entries(),
            InternalRevset::Filter(set) => set.entries(),
            InternalRevset::Union(set) => set.entries(),
            InternalRevset::Difference(set) => set.entries(),
        }
    }

    pub open spec fn wf(self) -> bool
        decreases self,
    {
        match self {
            InternalRevset::Eager(set) => set.wf(),
            InternalRevset::RevWalk(set) => set.wf(),
            InternalRevset::Children(set) => set.wf(),
            InternalRevset::Filter(set) => set.wf(),
            InternalRevset::Union(set) => set.wf(),
            InternalRevset::Difference(set) => set.wf(),
        }
    }

    /// What the predicate that tests membership says of entries.
    pub open spec fn predicate_model(self) -> PredicateModel<P>
        decreases self,
    {
        match self {
            InternalRevset::Eager(set) => PredicateModel::Members(set.entries().dom()),
            InternalRevset::RevWalk(set) => PredicateModel::Members(set.entries().dom()),
            InternalRevset::Children(set) => PredicateModel::Members(set.entries().dom()),
            InternalRevset::Filter(set) => PredicateModel::And(
                Box::new(set.candidates.predicate_model()),
                Box::new(set.predicate.predicate_model()),
            ),
            InternalRevset::Union(set) => PredicateModel::Or(
                Box::new(set.set1.predicate_model()),
                Box::new(set.set2.predicate_model()),
            ),
            InternalRevset::Difference(set) => PredicateModel::AndNot(
                Box::new(set.set1.predicate_model()),
                Box::new(set.set2.predicate_model()),
            ),
        }
    }
}

impl<'index, P: PurePredicate<'index>> ChildrenRevset<'index, P> {
    /// Whether the set can be iterated over.
    pub open spec fn is_iterable(self) -> bool
        decreases self,
    {
        self.root_set.is_iterable() && self.candidate_set.is_iterable()
    }

    /// Whether a test for membership can be made.
    pub open spec fn is_askable(self) -> bool
        decreases self,
    {
        self.root_set.is_iterable() && self.candidate_set.is_iterable()
    }
}

impl<'index, P: PurePredicate<'index>> FilterPredicate<'index, P> {
    /// Whether a test can be made.
    pub open spec fn is_askable(self) -> bool
        decreases self,
    {
        match self {
            FilterPredicate::Revset(set) => set.is_askable(),
            FilterPredicate::Pure(_) => true,
        }
    }
}

impl<'index, P: PurePredicate<'index>> FilterRevset<'index, P> {
    /// Whether the set can be iterated over: the predicate can be asked about each candidate.
    pub open spec fn is_iterable(self) -> bool
        decreases self,
    {
        &&& self.candidates.is_iterable()
        &&& self.predicate.is_askable()
        &&& iter::is_defined_on(self.predicate.predicate_model(), self.candidates.entries())
    }

    /// Whether a test for membership can be made.
    pub open spec fn is_askable(self) -> bool
        decreases self,
    {
        self.candidates.is_askable() && self.predicate.is_askable()
    }
}

impl<'index, P: PurePredicate<'index>> UnionRevset<'index, P> {
    /// Whether the set can be iterated over.
    pub open spec fn is_iterable(self) -> bool
        decreases self,
    {
        self.set1.is_iterable() && self.set2.is_iterable()
    }

    /// Whether a test for membership can be made.
    pub open spec fn is_askable(self) -> bool
        decreases self,
    {
        self.set1.is_askable() && self.set2.is_askable()
    }
}

impl<'index, P: PurePredicate<'index>> DifferenceRevset<'index, P> {
    /// Whether the set can be iterated over.
    pub open spec fn is_iterable(self) -> bool
        decreases self,
    {
        self.set1.is_iterable() && self.set2.is_iterable()
    }

    /// Whether a test for membership can be made.
    pub open spec fn is_askable(self) -> bool
        decreases self,
    {
        self.set1.is_askable() && self.set2.is_askable()
    }
}

impl<'index, P: PurePredicate<'index>> InternalRevset<'index, P> {
    /// Whether the set can be iterated over: the predicate of every filter in it can be asked about
    /// each of its candidates.
    pub open spec fn is_iterable(self) -> bool
        decreases self,
    {
        match self {
            InternalRevset::Eager(_) => true,
            InternalRevset::RevWalk(_) => true,
            InternalRevset::Children(set) => set.is_iterable(),
            InternalRevset::Filter(set) => set.is_iterable(),
            InternalRevset::Union(set) => set.is_iterable(),
            InternalRevset::Difference(set) => set.is_iterable(),
        }
    }

    /// Whether a test for membership can be made.
    pub open spec fn is_askable(self) -> bool
        decreases self,
    {
        match self {
            InternalRevset::Eager(_) => true,
            InternalRevset::RevWalk(_) => true,
            InternalRevset::Children(set) => set.is_askable(),
            InternalRevset::Filter(set) => set.is_askable(),
            InternalRevset::Union(set) => set.is_askable(),
            InternalRevset::Difference(set) => set.is_askable(),
        }
    }
}

impl<'index> EagerRevset<'index> {
    /// The set without entries.
    pub fn empty() -> (set: Self)
        ensures
            set.wf(),
            set.index_entries@.len() == 0,
            set.entries() == Map::<u32, IndexEntry<'index>>::empty(),
    {
        let set = EagerRevset { index_entries: Vec::new() };
        assert(set.entries() =~= Map::empty());
        set
    }

    /// The entries, in descending order of position.
    pub fn iter<'a, P: PurePredicate<'index>>(&'a self) -> (iter: RevsetIterator<'a, 'index, P>)
        requires
            self.wf(),
        ensures
            iter.wf(),
            iter.remaining() == self.entries(),
    {
        assert(self.index_entries@.skip(0) =~= self.index_entries@);
        RevsetIterator::Eager(EagerIterator { entries: &self.index_entries, next: 0 })
    }

    /// A test for membership, of entries in descending order of position.
    pub fn to_predicate_fn<'a, P: PurePredicate<'index>>(&'a self) -> (test: PredicateFn<
        'a,
        'index,
        P,
    >)
        requires
            self.wf(),
        ensures
            test.wf(),
            test.model() == PredicateModel::<P>::Members(self.entries().dom()),
    {
        iter::predicate_fn_from_iter(self.iter())
    }
}

impl<'index> RevWalkRevset<'index> {
    /// The entries, in descending order of position.
    pub fn iter<'a, P: PurePredicate<'index>>(&'a self) -> (iter: RevsetIterator<'a, 'index, P>)
        requires
            self.wf(),
        ensures
            iter.wf(),
            iter.remaining() == self.entries(),
    {
        RevsetIterator::RevWalk(self.walk.iter())
    }

    /// A test for membership, of entries in descending order of position.
    pub fn to_predicate_fn<'a, P: PurePredicate<'index>>(&'a self) -> (test: PredicateFn<
        'a,
        'index,
        P,
    >)
        requires
            self.wf(),
        ensures
            test.wf(),
            test.model() == PredicateModel::<P>::Members(self.entries().dom()),
    {
        iter::predicate_fn_from_iter(self.iter())
    }
}

impl<'index, P: PurePredicate<'index>> ChildrenRevset<'index, P> {
    /// The entries, in descending order of position.
    pub fn iter<'a>(&'a self) -> (iter: RevsetIterator<'a, 'index, P>)
        requires
            self.wf(),
            self.is_iterable(),
        ensures
            iter.wf(),
            iter.remaining() == self.entries(),
        decreases self, 0nat,
    {
        let roots = collect_positions(self.root_set.iter());
        let candidates_iter = self.candidate_set.iter();
        RevsetIterator::Children(Box::new(ChildrenRevsetIterator { candidates_iter, roots }))
    }

    /// A test for membership, of entries in descending order of position.
    pub fn to_predicate_fn<'a>(&'a self) -> (test: PredicateFn<'a, 'index, P>)
        requires
            self.wf(),
            self.is_askable(),
        ensures
            test.wf(),
            test.model() == PredicateModel::<P>::Members(self.entries().dom()),
        decreases self, 1nat,
    {
        iter::predicate_fn_from_iter(self.iter())
    }
}

/// The positions of the entries that are still to come.
pub fn collect_positions<'a, 'index, P: PurePredicate<'index>>(
    iter: RevsetIterator<'a, 'index, P>,
) -> (positions: HashSet<u32>)
    requires
        iter.wf(),
    ensures
        positions@ == iter.remaining().dom(),
{
    let entries = iter.collect_vec();
    let mut positions: HashSet<u32> = HashSet::new();
    for i in 0..entries.len()
        invariant
            forall|p: u32|
                #[trigger] positions@.contains(p) <==> exists|j: int|
                    0 <= j < i && (#[trigger] entries@[j]).pos.0 == p,
    {
        positions.insert(entries[i].position().0);
    }
    assert(positions@ =~= iter.remaining().dom());
    positions
}

impl<'index, P: PurePredicate<'index>> FilterPredicate<'index, P> {
    /// The predicate, to be asked about entries in descending order of position.
    pub fn to_predicate_fn<'a>(&'a self) -> (test: PredicateFn<'a, 'index, P>)
        requires
            self.wf(),
            self.is_askable(),
        ensures
            test.wf(),
            test.model() == self.predicate_model(),
        decreases self, 1nat,
    {
        match self {
            FilterPredicate::Revset(set) => set.to_predicate_fn(),
            FilterPredicate::Pure(test) => PredicateFn::Pure(test),
        }
    }
}

impl<'index, P: PurePredicate<'index>> FilterRevset<'index, P> {
    /// The entries, in descending order of position.
    pub fn iter<'a>(&'a self) -> (iter: RevsetIterator<'a, 'index, P>)
        requires
            self.wf(),
            self.is_iterable(),
        ensures
            iter.wf(),
            iter.remaining() == self.entries(),
        decreases self, 0nat,
    {
        let candidates_iter = self.candidates.iter();
        let predicate = self.predicate.to_predicate_fn();
        RevsetIterator::Filter(Box::new(FilterRevsetIterator { candidates_iter, predicate }))
    }

    /// A test for membership, of entries in descending order of position.
    pub fn to_predicate_fn<'a>(&'a self) -> (test: PredicateFn<'a, 'index, P>)
        requires
            self.wf(),
            self.is_askable(),
        ensures
            test.wf(),
            test.model() == PredicateModel::And(
                Box::new(self.candidates.predicate_model()),
                Box::new(self.predicate.predicate_model()),
            ),
        decreases self, 1nat,
    {
        let p1 = self.candidates.to_predicate_fn();
        let p2 = self.predicate.to_predicate_fn();
        PredicateFn::And(Box::new(p1), Box::new(p2))
    }
}

impl<'index, P: PurePredicate<'index>> UnionRevset<'index, P> {
    /// The entries, in descending order of position.
    pub fn iter<'a>(&'a self) -> (iter: RevsetIterator<'a, 'index, P>)
        requires
            self.wf(),
            self.is_iterable(),
        ensures
            iter.wf(),
            iter.remaining() == self.entries(),
        decreases self, 0nat,
    {
        let iter1 = Peekable::new(self.set1.iter());
        let iter2 = Peekable::new(self.set2.iter());
        RevsetIterator::Union(Box::new(UnionRevsetIterator { iter1, iter2 }))
    }

    /// A test for membership, of entries in descending order of position.
    pub fn to_predicate_fn<'a>(&'a self) -> (test: PredicateFn<'a, 'index, P>)
        requires
            self.wf(),
            self.is_askable(),
        ensures
            test.wf(),
            test.model() == PredicateModel::Or(
                Box::new(self.set1.predicate_model()),
                Box::new(self.set2.predicate_model()),
            ),
        decreases self, 1nat,
    {
        let p1 = self.set1.to_predicate_fn();
        let p2 = self.set2.to_predicate_fn();
        PredicateFn::Or(Box::new(p1), Box::new(p2))
    }
}

impl<'index, P: PurePredicate<'index>> DifferenceRevset<'index, P> {
    /// The entries, in descending order of position.
    pub fn iter<'a>(&'a self) -> (iter: RevsetIterator<'a, 'index, P>)
        requires
            self.wf(),
            self.is_iterable(),
        ensures
            iter.wf(),
            iter.remaining() == self.entries(),
        decreases self, 0nat,
    {
        let iter1 = Peekable::new(self.set1.iter());
        let iter2 = Peekable::new(self.set2.iter());
        RevsetIterator::Difference(Box::new(DifferenceRevsetIterator { iter1, iter2 }))
    }

    /// A test for membership, of entries in descending order of position.
    pub fn to_predicate_fn<'a>(&'a self) -> (test: PredicateFn<'a, 'index, P>)
        requires
            self.wf(),
            self.is_askable(),
        ensures
            test.wf(),
            test.model() == PredicateModel::AndNot(
                Box::new(self.set1.predicate_model()),
                Box::new(self.set2.predicate_model()),
            ),
        decreases self, 1nat,
    {
        let p1 = self.set1.to_predicate_fn();
        let p2 = self.set2.to_predicate_fn();
        PredicateFn::AndNot(Box::new(p1), Box::new(p2))
    }
}

impl<'index, P: PurePredicate<'index>> InternalRevset<'index, P> {
    /// The entries, in descending order of position.
    pub fn iter<'a>(&'a self) -> (iter: RevsetIterator<'a, 'index, P>)
        requires
            self.wf(),
            self.is_iterable(),
        ensures
            iter.wf(),
            iter.remaining() == self.entries(),
        decreases self, 0nat,
    {
        match self {
            InternalRevset::Eager(set) => set.iter(),
            InternalRevset::RevWalk(set) => set.iter(),
            InternalRevset::Children(set) => set.iter(),
            InternalRevset::Filter(set) => set.iter(),
            InternalRevset::Union(set) => set.iter(),
            InternalRevset::Difference(set) => set.iter(),
        }
    }

    /// A test for membership, of entries in descending order of position.
    pub fn to_predicate_fn<'a>(&'a self) -> (test: PredicateFn<'a, 'index, P>)
        requires
            self.wf(),
            self.is_askable(),
        ensures
            test.wf(),
            test.model() == self.predicate_model(),
        decreases self, 1nat,
    {
        match self {
            InternalRevset::Eager(set) => set.to_predicate_fn(),
            InternalRevset::RevWalk(set) => set.to_predicate_fn(),
            InternalRevset::Children(set) => set.to_predicate_fn(),
            InternalRevset::Filter(set) => set.to_predicate_fn(),
            InternalRevset::Union(set) => set.to_predicate_fn(),
            InternalRevset::Difference(set) => set.to_predicate_fn(),
        }
    }
}

impl<'index, P: PurePredicate<'index>> FilterPredicate<'index, P> {
    /// All entries that the predicate is made of are of the index.
    pub open spec fn is_over(self, index: &'index CompositeIndex) -> bool
        decreases self,
    {
        match self {
            FilterPredicate::Revset(set) => set.is_over(index),
            FilterPredicate::Pure(_) => true,
        }
    }
}

impl<'index, P: PurePredicate<'index>> InternalRevset<'index, P> {
    /// All entries that the set is made of are of the index.
    pub open spec fn is_over(self, index: &'index CompositeIndex) -> bool
        decreases self,
    {
        match self {
            InternalRevset::Eager(set) => forall|i: int|
                0 <= i < set.index_entries@.len() ==> (#[trigger] set.index_entries@[i]).index
                    == index,
            InternalRevset::RevWalk(set) => set.walk.walked_index() == index,
            InternalRevset::Children(set) => set.root_set.is_over(index)
                && set.candidate_set.is_over(index),
            InternalRevset::Filter(set) => set.candidates.is_over(index) && set.predicate.is_over(
                index,
            ),
            InternalRevset::Union(set) => set.set1.is_over(index) && set.set2.is_over(index),
            InternalRevset::Difference(set) => set.set1.is_over(index) && set.set2.is_over(index),
        }
    }
}

/// A set over an index holds just the entries of the index at its positions.
pub proof fn lemma_entries_over_index<'index, P: PurePredicate<'index>>(
    set: InternalRevset<'index, P>,
    index: &'index CompositeIndex,
)
    requires
        set.wf(),
        set.is_over(index),
    ensures
        set.entries() == index::entries_of(index, set.entries().dom()),
    decreases set,
{
    match set {
        InternalRevset::Eager(eager) => {
            let entries = eager.index_entries@;
            assert forall|p: u32| #[trigger] set.entries().dom().contains(p) implies set.entries()[p]
                == index::entry_at(index, p) by {
                let i = choose|i: int| 0 <= i < entries.len() && (#[trigger] entries[i]).pos.0 == p;
                iter::lemma_entry_map(entries, i);
            }
        },
        InternalRevset::RevWalk(_) => {},
        InternalRevset::Children(children) => {
            lemma_entries_over_index(*children.candidate_set, index);
        },
        InternalRevset::Filter(filter) => {
            lemma_entries_over_index(*filter.candidates, index);
        },
        InternalRevset::Union(union) => {
            lemma_entries_over_index(*union.set1, index);
            lemma_entries_over_index(*union.set2, index);
        },
        InternalRevset::Difference(difference) => {
            lemma_entries_over_index(*difference.set1, index);
        },
    }
    assert(set.entries() =~= index::entries_of(index, set.entries().dom()));
}

/// The predicate of a set matches an entry of its index if and only if the set has the entry.
pub proof fn law_predicate_is_membership<'index, P: PurePredicate<'index>>(
    set: InternalRevset<'index, P>,
    index: &'index CompositeIndex,
    p: u32,
)
    requires
        set.wf(),
        set.is_over(index),
    ensures
        set.predicate_model().outcome(index::entry_at(index, p)) is Match
            <==> set.entries().dom().contains(p),
    decreases set,
{
    let entry = index::entry_at(index, p);
    match set {
        InternalRevset::Filter(filter) => {
            law_predicate_is_membership(*filter.candidates, index, p);
            lemma_entries_over_index(*filter.candidates, index);
        },
        InternalRevset::Union(union) => {
            law_predicate_is_membership(*union.set1, index, p);
            law_predicate_is_membership(*union.set2, index, p);
        },
        InternalRevset::Difference(difference) => {
            law_predicate_is_membership(*difference.set1, index, p);
            law_predicate_is_membership(*difference.set2, index, p);
        },
        _ => {},
    }
}

/// Once the predicate of a set has said that it will not match again, the set has no entry at that
/// position or a lower one.
pub proof fn law_predicate_never_again<'index, P: PurePredicate<'index>>(
    set: InternalRevset<'index, P>,
    index: &'index CompositeIndex,
    p: u32,
    q: u32,
)
    requires
        set.wf(),
        set.is_over(index),
        set.predicate_model().outcome(index::entry_at(index, p)) is NeverAgain,
        q <= p,
    ensures
        !set.entries().dom().contains(q),
{
    predicate::law_never_again(
        set.predicate_model(),
        index::entry_at(index, p),
        index::entry_at(index, q),
    );
    law_predicate_is_membership(set, index, q);
}

} // verus!
