//! Iterators over the entries of revsets, and the predicates that test membership with them.

use crate::index;
use crate::index::IndexEntry;
use crate::predicate;
use crate::predicate::{PredicateMatch, PredicateModel, PurePredicate};
use crate::walk::RevWalkIterator;
use std::collections::HashSet;
use vstd::prelude::*;

verus! {

broadcast use vstd::std_specs::hash::group_hash_axioms;

/// The entries of a sequence, by position.
pub open spec fn entry_map<'index>(entries: Seq<IndexEntry<'index>>) -> Map<
    u32,
    IndexEntry<'index>,
> {
    Map::new(
        |p: u32| exists|i: int| 0 <= i < entries.len() && (#[trigger] entries[i]).pos.0 == p,
        |p: u32|
            entries[choose|i: int| 0 <= i < entries.len() && (#[trigger] entries[i]).pos.0 == p],
    )
}

/// Entries of an index in strictly descending order of position.
pub open spec fn is_descending<'index>(entries: Seq<IndexEntry<'index>>) -> bool {
    &&& forall|i: int| 0 <= i < entries.len() ==> (#[trigger] entries[i]).wf()
    &&& forall|i: int, j: int|
        0 <= i < j < entries.len() ==> (#[trigger] entries[j]).pos.0 < (#[trigger] entries[i]).pos.0
}

/// The entries at positions below `p`.
pub open spec fn below<'index>(entries: Map<u32, IndexEntry<'index>>, p: u32) -> Map<
    u32,
    IndexEntry<'index>,
> {
    entries.restrict(Set::new(|q: u32| q < p))
}

/// Whether `p` is below the positions of all entries.
pub open spec fn is_below_all<'index>(entries: Map<u32, IndexEntry<'index>>, p: u32) -> bool {
    forall|q: u32| #[trigger] entries.dom().contains(q) ==> p < q
}

/// Whether a parent of the entry is at one of the positions.
pub open spec fn has_parent_in<'index>(entry: IndexEntry<'index>, positions: Set<u32>) -> bool {
    exists|p: u32| #[trigger] positions.contains(p) && entry.commit().parents.contains(p)
}

/// The entries that have a parent at one of the positions.
pub open spec fn select_children<'index>(
    entries: Map<u32, IndexEntry<'index>>,
    parents: Set<u32>,
) -> Map<u32, IndexEntry<'index>> {
    Map::new(
        |p: u32| entries.dom().contains(p) && has_parent_in(entries[p], parents),
        |p: u32| entries[p],
    )
}

/// The entries that the predicate matches.
pub open spec fn select_matching<'index, P: PurePredicate<'index>>(
    entries: Map<u32, IndexEntry<'index>>,
    model: PredicateModel<P>,
) -> Map<u32, IndexEntry<'index>> {
    Map::new(
        |p: u32| entries.dom().contains(p) && model.outcome(entries[p]) is Match,
        |p: u32| entries[p],
    )
}

/// The predicate can be asked about each of the entries.
pub open spec fn is_defined_on<'index, P: PurePredicate<'index>>(
    model: PredicateModel<P>,
    entries: Map<u32, IndexEntry<'index>>,
) -> bool {
    forall|p: u32| #[trigger] entries.dom().contains(p) ==> model.is_defined(entries[p])
}

pub proof fn lemma_entry_map<'index>(entries: Seq<IndexEntry<'index>>, i: int)
    requires
        is_descending(entries),
        0 <= i < entries.len(),
    ensures
        entry_map(entries).contains_pair(entries[i].pos.0, entries[i]),
{
    let p = entries[i].pos.0;
    let j = choose|j: int| 0 <= j < entries.len() && (#[trigger] entries[j]).pos.0 == p;
    assert(entries[j].pos.0 == entries[i].pos.0);
}

pub proof fn lemma_entry_map_values<'index>(entries: Seq<IndexEntry<'index>>)
    requires
        is_descending(entries),
    ensures
        index::are_entries(entry_map(entries)),
{
    assert forall|p: u32| #[trigger] entry_map(entries).dom().contains(p) implies entry_map(
        entries,
    )[p].pos.0 == p && entry_map(entries)[p].wf() by {
        let i = choose|i: int| 0 <= i < entries.len() && (#[trigger] entries[i]).pos.0 == p;
        lemma_entry_map(entries, i);
    }
}

pub proof fn lemma_positions_finite(positions: Set<u32>)
    ensures
        positions.finite(),
{
    broadcast use vstd::set_lib::full_set_properties;

    vstd::set_lib::lemma_set_subset_finite(Set::<u32>::full(), positions);
}

/// The entries of a vector, from `next` on.
pub struct EagerIterator<'a, 'index> {
    pub entries: &'a Vec<IndexEntry<'index>>,
    pub next: usize,
}

/// The candidates that have a parent among the roots.
pub struct ChildrenRevsetIterator<'a, 'index, P> {
    pub candidates_iter: RevsetIterator<'a, 'index, P>,
    pub roots: HashSet<u32>,
}

/// The candidates that a predicate matches.
pub struct FilterRevsetIterator<'a, 'index, P> {
    pub candidates_iter: RevsetIterator<'a, 'index, P>,
    pub predicate: PredicateFn<'a, 'index, P>,
}

/// The entries of two iterators.
pub struct UnionRevsetIterator<'a, 'index, P> {
    pub iter1: Peekable<'a, 'index, P>,
    pub iter2: Peekable<'a, 'index, P>,
}

/// The entries of one iterator that another does not have.
pub struct DifferenceRevsetIterator<'a, 'index, P> {
    pub iter1: Peekable<'a, 'index, P>,
    pub iter2: Peekable<'a, 'index, P>,
}

/// The entries of a revset, in descending order of position.
pub enum RevsetIterator<'a, 'index, P> {
    Eager(EagerIterator<'a, 'index>),
    RevWalk(RevWalkIterator<'index>),
    Children(Box<ChildrenRevsetIterator<'a, 'index, P>>),
    Filter(Box<FilterRevsetIterator<'a, 'index, P>>),
    Union(Box<UnionRevsetIterator<'a, 'index, P>>),
    Difference(Box<DifferenceRevsetIterator<'a, 'index, P>>),
}

/// An iterator whose next entry can be looked at.
pub struct Peekable<'a, 'index, P> {
    pub iter: RevsetIterator<'a, 'index, P>,
    /// The outcome of the step that has been looked at.
    pub peeked: Option<Option<IndexEntry<'index>>>,
}

/// A predicate that is asked about entries in descending order of position.
pub enum PredicateFn<'a, 'index, P> {
    FromIter(Box<Peekable<'a, 'index, P>>),
    Pure(&'a P),
    And(Box<PredicateFn<'a, 'index, P>>, Box<PredicateFn<'a, 'index, P>>),
    Or(Box<PredicateFn<'a, 'index, P>>, Box<PredicateFn<'a, 'index, P>>),
    AndNot(Box<PredicateFn<'a, 'index, P>>, Box<PredicateFn<'a, 'index, P>>),
}

impl<'a, 'index, P: PurePredicate<'index>> RevsetIterator<'a, 'index, P> {
    /// The entries that are still to come.
    pub open spec fn remaining(self) -> Map<u32, IndexEntry<'index>>
        decreases self,
    {
        match self {
            RevsetIterator::Eager(iter) => iter.remaining(),
            RevsetIterator::RevWalk(iter) => iter@,
            RevsetIterator::Children(iter) => iter.remaining(),
            RevsetIterator::Filter(iter) => iter.remaining(),
            RevsetIterator::Union(iter) => iter.remaining(),
            RevsetIterator::Difference(iter) => iter.remaining(),
        }
    }

    pub open spec fn wf(self) -> bool
        decreases self,
    {
        match self {
            RevsetIterator::Eager(iter) => iter.wf(),
            RevsetIterator::RevWalk(iter) => iter.wf(),
            RevsetIterator::Children(iter) => iter.wf(),
            RevsetIterator::Filter(iter) => iter.wf(),
            RevsetIterator::Union(iter) => iter.wf(),
            RevsetIterator::Difference(iter) => iter.wf(),
        }
    }

    /// The number of iterators and predicates that this one is made of.
    pub open spec fn size(self) -> nat
        decreases self,
    {
        match self {
            RevsetIterator::Eager(_) => 1,
            RevsetIterator::RevWalk(_) => 1,
            RevsetIterator::Children(iter) => 1 + iter.size(),
            RevsetIterator::Filter(iter) => 1 + iter.size(),
            RevsetIterator::Union(iter) => 1 + iter.size(),
            RevsetIterator::Difference(iter) => 1 + iter.size(),
        }
    }
}

impl<'a, 'index> EagerIterator<'a, 'index> {
    pub open spec fn remaining(self) -> Map<u32, IndexEntry<'index>> {
        entry_map(self.entries@.skip(self.next as int))
    }

    pub open spec fn wf(self) -> bool {
        is_descending(self.entries@) && self.next <= self.entries@.len()
    }
}

impl<'a, 'index, P: PurePredicate<'index>> ChildrenRevsetIterator<'a, 'index, P> {
    pub open spec fn remaining(self) -> Map<u32, IndexEntry<'index>>
        decreases self,
    {
        select_children(self.candidates_iter.remaining(), self.roots@)
    }

    pub open spec fn wf(self) -> bool
        decreases self,
    {
        self.candidates_iter.wf()
    }

    pub open spec fn size(self) -> nat
        decreases self,
    {
        1 + self.candidates_iter.size()
    }
}

impl<'a, 'index, P: PurePredicate<'index>> FilterRevsetIterator<'a, 'index, P> {
    pub open spec fn remaining(self) -> Map<u32, IndexEntry<'index>>
        decreases self,
    {
        select_matching(self.candidates_iter.remaining(), self.predicate.model())
    }

    pub open spec fn wf(self) -> bool
        decreases self,
    {
        &&& self.candidates_iter.wf()
        &&& self.predicate.wf()
        &&& is_defined_on(self.predicate.model(), self.candidates_iter.remaining())
    }

    pub open spec fn size(self) -> nat
        decreases self,
    {
        1 + self.candidates_iter.size() + self.predicate.size()
    }
}

impl<'a, 'index, P: PurePredicate<'index>> UnionRevsetIterator<'a, 'index, P> {
    pub open spec fn remaining(self) -> Map<u32, IndexEntry<'index>>
        decreases self,
    {
        self.iter1.remaining().union_prefer_right(self.iter2.remaining())
    }

    pub open spec fn wf(self) -> bool
        decreases self,
    {
        self.iter1.wf() && self.iter2.wf()
    }

    pub open spec fn size(self) -> nat
        decreases self,
    {
        1 + self.iter1.size() + self.iter2.size()
    }
}

impl<'a, 'index, P: PurePredicate<'index>> DifferenceRevsetIterator<'a, 'index, P> {
    pub open spec fn remaining(self) -> Map<u32, IndexEntry<'index>>
        decreases self,
    {
        self.iter1.remaining().remove_keys(self.iter2.remaining().dom())
    }

    pub open spec fn wf(self) -> bool
        decreases self,
    {
        self.iter1.wf() && self.iter2.wf()
    }

    pub open spec fn size(self) -> nat
        decreases self,
    {
        1 + self.iter1.size() + self.iter2.size()
    }
}

impl<'a, 'index, P: PurePredicate<'index>> Peekable<'a, 'index, P> {
    pub open spec fn remaining(self) -> Map<u32, IndexEntry<'index>>
        decreases self,
    {
        match self.peeked {
            Some(Some(entry)) => self.iter.remaining().insert(entry.pos.0, entry),
            _ => self.iter.remaining(),
        }
    }

    pub open spec fn wf(self) -> bool
        decreases self,
    {
        &&& self.iter.wf()
        &&& match self.peeked {
            Some(Some(entry)) => {
                &&& entry.wf()
                &&& forall|p: u32| #[trigger]
                    self.iter.remaining().dom().contains(p) ==> p < entry.pos.0
            },
            Some(None) => self.iter.remaining().dom().is_empty(),
            None => true,
        }
    }

    pub open spec fn size(self) -> nat
        decreases self,
    {
        1 + self.iter.size()
    }
}

impl<'a, 'index, P: PurePredicate<'index>> PredicateFn<'a, 'index, P> {
    /// What the predicate says of the entries that it is still to be asked about.
    pub open spec fn model(self) -> PredicateModel<P>
        decreases self,
    {
        match self {
            PredicateFn::FromIter(iter) => PredicateModel::Members(iter.remaining().dom()),
            PredicateFn::Pure(test) => PredicateModel::Pure(*test),
            PredicateFn::And(first, second) => PredicateModel::And(
                Box::new(first.model()),
                Box::new(second.model()),
            ),
            PredicateFn::Or(first, second) => PredicateModel::Or(
                Box::new(first.model()),
                Box::new(second.model()),
            ),
            PredicateFn::AndNot(first, second) => PredicateModel::AndNot(
                Box::new(first.model()),
                Box::new(second.model()),
            ),
        }
    }

    pub open spec fn wf(self) -> bool
        decreases self,
    {
        match self {
            PredicateFn::FromIter(iter) => iter.wf(),
            PredicateFn::Pure(_) => true,
            PredicateFn::And(first, second) => first.wf() && second.wf(),
            PredicateFn::Or(first, second) => first.wf() && second.wf(),
            PredicateFn::AndNot(first, second) => first.wf() && second.wf(),
        }
    }

    pub open spec fn size(self) -> nat
        decreases self,
    {
        match self {
            PredicateFn::FromIter(iter) => 2 + iter.size(),
            PredicateFn::Pure(_) => 1,
            PredicateFn::And(first, second) => 1 + first.size() + second.size(),
            PredicateFn::Or(first, second) => 1 + first.size() + second.size(),
            PredicateFn::AndNot(first, second) => 1 + first.size() + second.size(),
        }
    }
}

pub proof fn lemma_entry_map_step<'index>(entries: Seq<IndexEntry<'index>>)
    requires
        is_descending(entries),
    ensures
        entries.len() == 0 ==> entry_map(entries).dom().is_empty(),
        entries.len() > 0 ==> index::yields_next(
            entry_map(entries),
            Some(entries[0]),
            entry_map(entries.skip(1)),
        ),
{
    if entries.len() == 0 {
        assert(entry_map(entries).dom() =~= Set::<u32>::empty());
    } else {
        let rest = entries.skip(1);
        let top = entries[0].pos.0;
        let all = entry_map(entries);
        lemma_entry_map(entries, 0);
        assert forall|p: u32| #[trigger] all.dom().contains(p) implies p <= top && (p != top
            ==> entry_map(rest).contains_pair(p, all[p])) by {
            let i = choose|i: int| 0 <= i < entries.len() && (#[trigger] entries[i]).pos.0 == p;
            lemma_entry_map(entries, i);
            if i > 0 {
                assert(rest[i - 1] == entries[i]);
                lemma_entry_map(rest, i - 1);
            }
        }
        assert forall|p: u32| #[trigger] entry_map(rest).dom().contains(p) implies all.remove(
            top,
        ).dom().contains(p) by {
            let i = choose|i: int| 0 <= i < rest.len() && (#[trigger] rest[i]).pos.0 == p;
            assert(entries[i + 1] == rest[i]);
            lemma_entry_map(entries, i + 1);
        }
        assert(entry_map(rest) =~= all.remove(top));
    }
}

/// What is still to come are entries of indexes, each under its position.
pub proof fn lemma_remaining_are_entries<'a, 'index, P: PurePredicate<'index>>(
    iter: RevsetIterator<'a, 'index, P>,
)
    requires
        iter.wf(),
    ensures
        index::are_entries(iter.remaining()),
    decreases iter,
{
    match iter {
        RevsetIterator::Eager(iter) => {
            lemma_entry_map_values(iter.entries@.skip(iter.next as int));
        },
        RevsetIterator::RevWalk(iter) => {
            iter.lemma_entries();
        },
        RevsetIterator::Children(iter) => {
            lemma_remaining_are_entries(iter.candidates_iter);
        },
        RevsetIterator::Filter(iter) => {
            lemma_remaining_are_entries(iter.candidates_iter);
        },
        RevsetIterator::Union(iter) => {
            lemma_peekable_are_entries(iter.iter1);
            lemma_peekable_are_entries(iter.iter2);
        },
        RevsetIterator::Difference(iter) => {
            lemma_peekable_are_entries(iter.iter1);
        },
    }
}

pub proof fn lemma_peekable_are_entries<'a, 'index, P: PurePredicate<'index>>(
    iter: Peekable<'a, 'index, P>,
)
    requires
        iter.wf(),
    ensures
        index::are_entries(iter.remaining()),
    decreases iter,
{
    lemma_remaining_are_entries(iter.iter);
}

impl<'a, 'index> EagerIterator<'a, 'index> {
    /// The next entry.
    pub fn next(&mut self) -> (entry: Option<IndexEntry<'index>>)
        requires
            old(self).wf(),
        ensures
            final(self).wf(),
            index::yields_next(old(self).remaining(), entry, final(self).remaining()),
    {
        let ghost rest = self.entries@.skip(self.next as int);
        proof {
            lemma_entry_map_step(rest);
        }
        if self.next < self.entries.len() {
            let entry = self.entries[self.next];
            self.next = self.next + 1;
            assert(self.entries@.skip(self.next as int) =~= rest.skip(1));
            Some(entry)
        } else {
            None
        }
    }
}

impl<'a, 'index, P: PurePredicate<'index>> RevsetIterator<'a, 'index, P> {
    /// The next entry.
    pub fn next(&mut self) -> (entry: Option<IndexEntry<'index>>)
        requires
            old(self).wf(),
        ensures
            final(self).wf(),
            final(self).size() == old(self).size(),
            index::yields_next(old(self).remaining(), entry, final(self).remaining()),
        decreases old(self).size(),
    {
        match self {
            RevsetIterator::Eager(iter) => iter.next(),
            RevsetIterator::RevWalk(iter) => iter.next(),
            RevsetIterator::Children(iter) => iter.next(),
            RevsetIterator::Filter(iter) => iter.next(),
            RevsetIterator::Union(iter) => iter.next(),
            RevsetIterator::Difference(iter) => iter.next(),
        }
    }
}

/// After entries at higher positions an entry can follow, and the order still is descending.
proof fn lemma_entry_map_push<'index>(
    entries: Seq<IndexEntry<'index>>,
    entry: IndexEntry<'index>,
)
    requires
        is_descending(entries),
        entry.wf(),
        forall|i: int| 0 <= i < entries.len() ==> entry.pos.0 < (#[trigger] entries[i]).pos.0,
    ensures
        is_descending(entries.push(entry)),
        entry_map(entries.push(entry)) == entry_map(entries).insert(entry.pos.0, entry),
{
    let all = entries.push(entry);
    let map = entry_map(entries).insert(entry.pos.0, entry);
    assert forall|p: u32| #[trigger] entry_map(all).dom().contains(p) implies map.contains_pair(
        p,
        entry_map(all)[p],
    ) by {
        let i = choose|i: int| 0 <= i < all.len() && (#[trigger] all[i]).pos.0 == p;
        lemma_entry_map(all, i);
        if i < entries.len() {
            lemma_entry_map(entries, i);
        }
    }
    assert forall|p: u32| #[trigger] map.dom().contains(p) implies entry_map(all).dom().contains(
        p,
    ) by {
        if p == entry.pos.0 {
            lemma_entry_map(all, entries.len() as int);
        } else {
            let i = choose|i: int| 0 <= i < entries.len() && (#[trigger] entries[i]).pos.0 == p;
            assert(all[i] == entries[i]);
            lemma_entry_map(all, i);
        }
    }
    assert(entry_map(all) =~= map);
}

impl<'a, 'index, P: PurePredicate<'index>> RevsetIterator<'a, 'index, P> {
    /// All entries that are still to come, in descending order of position.
    pub fn collect_vec(self) -> (entries: Vec<IndexEntry<'index>>)
        requires
            self.wf(),
        ensures
            is_descending(entries@),
            entry_map(entries@) == self.remaining(),
    {
        let mut iter = self;
        let ghost all = iter.remaining();
        let mut entries: Vec<IndexEntry<'index>> = Vec::new();
        proof {
            lemma_remaining_are_entries(iter);
            lemma_positions_finite(iter.remaining().dom());
            assert(entry_map(entries@) =~= Map::empty());
            assert(entry_map(entries@).union_prefer_right(all) =~= all);
        }
        loop
            invariant
                iter.wf(),
                is_descending(entries@),
                index::are_entries(iter.remaining()),
                iter.remaining().dom().finite(),
                forall|i: int, p: u32|
                    0 <= i < entries@.len() && #[trigger] iter.remaining().dom().contains(p)
                        ==> p < (#[trigger] entries@[i]).pos.0,
                entry_map(entries@).union_prefer_right(iter.remaining()) == all,
                all == self.remaining(),
            decreases iter.remaining().len(),
        {
            let ghost rest = iter.remaining();
            let ghost before = entries@;
            match iter.next() {
                None => {
                    assert(entry_map(entries@) =~= all);
                    return entries;
                },
                Some(entry) => {
                    proof {
                        assert(rest[entry.pos.0] == entry);
                        assert forall|i: int| 0 <= i < before.len() implies entry.pos.0 < (
                        #[trigger] before[i]).pos.0 by {
                            assert(rest.dom().contains(entry.pos.0));
                        }
                        lemma_entry_map_push(before, entry);
                    }
                    entries.push(entry);
                    proof {
                        assert(entry_map(entries@).union_prefer_right(iter.remaining()) =~= all);
                        assert forall|i: int, p: u32|
                            0 <= i < entries@.len() && #[trigger] iter.remaining().dom().contains(
                                p,
                            ) implies p < (#[trigger] entries@[i]).pos.0 by {
                            assert(rest.dom().contains(p));
                            if i < before.len() {
                                assert(entries@[i] == before[i]);
                            }
                        }
                    }
                },
            }
        }
    }
}

impl<'a, 'index, P: PurePredicate<'index>> Peekable<'a, 'index, P> {
    /// An iterator of which nothing has been looked at yet.
    pub fn new(iter: RevsetIterator<'a, 'index, P>) -> (peekable: Self)
        requires
            iter.wf(),
        ensures
            peekable.wf(),
            peekable.remaining() == iter.remaining(),
            peekable.size() == 1 + iter.size(),
    {
        Peekable { iter, peeked: None }
    }

    /// The next entry, which is still to come.
    pub fn peek(&mut self) -> (entry: Option<IndexEntry<'index>>)
        requires
            old(self).wf(),
        ensures
            final(self).wf(),
            final(self).size() == old(self).size(),
            final(self).remaining() == old(self).remaining(),
            index::yields_next(
                old(self).remaining(),
                entry,
                match entry {
                    Some(entry) => old(self).remaining().remove(entry.pos.0),
                    None => old(self).remaining(),
                },
            ),
        decreases old(self).size(),
    {
        let ghost before = self.remaining();
        proof {
            lemma_remaining_are_entries(self.iter);
        }
        match self.peeked {
            Some(peeked) => {
                proof {
                    if let Some(entry) = peeked {
                        assert(before.contains_pair(entry.pos.0, entry));
                    }
                }
                peeked
            },
            None => {
                let peeked = self.iter.next();
                self.peeked = Some(peeked);
                proof {
                    if let Some(entry) = peeked {
                        assert(self.remaining() =~= before);
                    }
                }
                peeked
            },
        }
    }

    /// The next entry.
    pub fn next(&mut self) -> (entry: Option<IndexEntry<'index>>)
        requires
            old(self).wf(),
        ensures
            final(self).wf(),
            final(self).size() == old(self).size(),
            index::yields_next(old(self).remaining(), entry, final(self).remaining()),
        decreases old(self).size(),
    {
        let ghost before = self.remaining();
        match self.peeked {
            Some(peeked) => {
                self.peeked = None;
                proof {
                    if let Some(entry) = peeked {
                        assert(!self.iter.remaining().dom().contains(entry.pos.0));
                        assert(before.contains_pair(entry.pos.0, entry));
                        assert(self.remaining() =~= before.remove(entry.pos.0));
                    }
                }
                peeked
            },
            None => self.iter.next(),
        }
    }
}

impl<'a, 'index, P: PurePredicate<'index>> UnionRevsetIterator<'a, 'index, P> {
    /// The next entry of either iterator. Both then have left what is below it.
    pub fn next(&mut self) -> (entry: Option<IndexEntry<'index>>)
        requires
            old(self).wf(),
        ensures
            final(self).wf(),
            final(self).size() == old(self).size(),
            index::yields_next(old(self).remaining(), entry, final(self).remaining()),
            entry matches Some(x) ==> {
                &&& final(self).iter1.remaining() == below(old(self).iter1.remaining(), x.pos.0)
                &&& final(self).iter2.remaining() == below(old(self).iter2.remaining(), x.pos.0)
            },
            entry is None ==> {
                &&& final(self).iter1.remaining().dom().is_empty()
                &&& final(self).iter2.remaining().dom().is_empty()
            },
        decreases old(self).size(),
    {
        let ghost all1 = self.iter1.remaining();
        let ghost all2 = self.iter2.remaining();
        let ghost all = all1.union_prefer_right(all2);
        let entry = match (self.iter1.peek(), self.iter2.peek()) {
            (None, _) => self.iter2.next(),
            (_, None) => self.iter1.next(),
            (Some(entry1), Some(entry2)) => {
                let (pos1, pos2) = (entry1.position(), entry2.position());
                if pos1.0 < pos2.0 {
                    self.iter2.next()
                } else if pos1 == pos2 {
                    self.iter1.next();
                    self.iter2.next()
                } else {
                    self.iter1.next()
                }
            },
        };
        proof {
            match entry {
                Some(entry) => {
                    assert(self.remaining() =~= all.remove(entry.pos.0));
                    assert(self.iter1.remaining() =~= below(all1, entry.pos.0));
                    assert(self.iter2.remaining() =~= below(all2, entry.pos.0));
                },
                None => {
                    assert(all.dom() =~= Set::<u32>::empty());
                    assert(self.remaining() =~= all);
                },
            }
        }
        entry
    }
}

impl<'a, 'index, P: PurePredicate<'index>> DifferenceRevsetIterator<'a, 'index, P> {
    /// The next entry of the first iterator that the second does not have. Both then have left what
    /// is below it. If there is none, the first is used up, and the second has left what is below
    /// all that the first had.
    pub fn next(&mut self) -> (entry: Option<IndexEntry<'index>>)
        requires
            old(self).wf(),
        ensures
            final(self).wf(),
            final(self).size() == old(self).size(),
            index::yields_next(old(self).remaining(), entry, final(self).remaining()),
            entry matches Some(x) ==> {
                &&& final(self).iter1.remaining() == below(old(self).iter1.remaining(), x.pos.0)
                &&& final(self).iter2.remaining() == below(old(self).iter2.remaining(), x.pos.0)
            },
            entry is None ==> {
                &&& final(self).iter1.remaining().dom().is_empty()
                &&& final(self).iter2.remaining() == old(self).iter2.remaining().restrict(
                    Set::new(|p: u32| is_below_all(old(self).iter1.remaining(), p)),
                )
            },
        decreases old(self).size(),
    {
        let ghost all = self.remaining();
        let ghost first = self.iter1.remaining();
        let ghost second = self.iter2.remaining();
        proof {
            lemma_positions_finite(self.iter1.remaining().dom());
            lemma_positions_finite(self.iter2.remaining().dom());
        }
        loop
            invariant
                self.wf(),
                self.size() == old(self).size(),
                self.remaining() == all,
                all == old(self).remaining(),
                first == old(self).iter1.remaining(),
                second == old(self).iter2.remaining(),
                self.iter1.remaining().dom().finite(),
                self.iter2.remaining().dom().finite(),
                forall|p: u32| #[trigger]
                    self.iter1.remaining().dom().contains(p) ==> first.contains_pair(
                        p,
                        self.iter1.remaining()[p],
                    ),
                forall|p: u32| #[trigger]
                    self.iter2.remaining().dom().contains(p) ==> second.contains_pair(
                        p,
                        self.iter2.remaining()[p],
                    ),
                // What the first has lost lies above what either has left.
                forall|p: u32, q: u32|
                    #![trigger first.dom().contains(p), self.iter1.remaining().dom().contains(q)]
                    first.dom().contains(p) && !self.iter1.remaining().dom().contains(p)
                        && self.iter1.remaining().dom().contains(q) ==> q < p,
                forall|p: u32, q: u32|
                    #![trigger first.dom().contains(p), self.iter2.remaining().dom().contains(q)]
                    first.dom().contains(p) && !self.iter1.remaining().dom().contains(p)
                        && self.iter2.remaining().dom().contains(q) ==> q < p,
                // What the second has lost lies above what the first has left, and is not below
                // all that the first had.
                forall|p: u32, q: u32|
                    #![trigger second.dom().contains(p), self.iter1.remaining().dom().contains(q)]
                    second.dom().contains(p) && !self.iter2.remaining().dom().contains(p)
                        && self.iter1.remaining().dom().contains(q) ==> q < p,
                forall|p: u32| #[trigger]
                    second.dom().contains(p) && !self.iter2.remaining().dom().contains(p)
                        ==> !is_below_all(first, p),
            decreases self.iter1.remaining().len() + self.iter2.remaining().len(),
        {
            let ghost all1 = self.iter1.remaining();
            let ghost all2 = self.iter2.remaining();
            match (self.iter1.peek(), self.iter2.peek()) {
                (None, _) => {
                    assert(all.dom() =~= Set::<u32>::empty());
                    assert(self.iter2.remaining() =~= second.restrict(
                        Set::new(|p: u32| is_below_all(first, p)),
                    ));
                    return None;
                },
                (Some(entry1), None) => {
                    let entry = self.iter1.next();
                    proof {
                        assert(all =~= all1);
                        assert(self.remaining() =~= self.iter1.remaining());
                        assert(all1.dom().contains(entry1.pos.0));
                        assert(self.iter1.remaining() =~= below(first, entry1.pos.0));
                        assert(self.iter2.remaining() =~= below(second, entry1.pos.0));
                    }
                    return entry;
                },
                (Some(entry1), Some(entry2)) => {
                    let (pos1, pos2) = (entry1.position(), entry2.position());
                    proof {
                        assert(all1.dom().contains(pos1.0));
                        assert(first.dom().contains(pos1.0));
                    }
                    if pos1.0 < pos2.0 {
                        self.iter2.next();
                        assert(self.remaining() =~= all);
                    } else if pos1 == pos2 {
                        self.iter2.next();
                        self.iter1.next();
                        assert(self.remaining() =~= all);
                    } else {
                        let entry = self.iter1.next();
                        proof {
                            assert(self.remaining() =~= all.remove(pos1.0));
                            assert(self.iter1.remaining() =~= below(first, pos1.0));
                            assert(self.iter2.remaining() =~= below(second, pos1.0));
                        }
                        return entry;
                    }
                },
            }
        }
    }
}

impl<'a, 'index, P: PurePredicate<'index>> ChildrenRevsetIterator<'a, 'index, P> {
    /// The next candidate that has a parent among the roots. No candidate after it is taken.
    pub fn next(&mut self) -> (entry: Option<IndexEntry<'index>>)
        requires
            old(self).wf(),
        ensures
            final(self).wf(),
            final(self).size() == old(self).size(),
            index::yields_next(old(self).remaining(), entry, final(self).remaining()),
            final(self).roots@ == old(self).roots@,
            entry matches Some(x) ==> final(self).candidates_iter.remaining() == below(
                old(self).candidates_iter.remaining(),
                x.pos.0,
            ),
            entry is None ==> final(self).candidates_iter.remaining().dom().is_empty(),
        decreases old(self).size(),
    {
        let ghost all = self.remaining();
        let ghost candidates = self.candidates_iter.remaining();
        proof {
            lemma_positions_finite(self.candidates_iter.remaining().dom());
        }
        loop
            invariant
                self.wf(),
                self.size() == old(self).size(),
                self.remaining() == all,
                all == old(self).remaining(),
                self.roots@ == old(self).roots@,
                candidates == old(self).candidates_iter.remaining(),
                forall|p: u32| #[trigger]
                    self.candidates_iter.remaining().dom().contains(p) ==> candidates.contains_pair(
                        p,
                        self.candidates_iter.remaining()[p],
                    ),
                forall|p: u32, q: u32|
                    #![trigger
                        candidates.dom().contains(p),
                        self.candidates_iter.remaining().dom().contains(q)]
                    candidates.dom().contains(p) && !self.candidates_iter.remaining().dom().contains(
                        p,
                    ) && self.candidates_iter.remaining().dom().contains(q) ==> q < p,
                self.candidates_iter.remaining().dom().finite(),
            decreases self.candidates_iter.remaining().len(),
        {
            let ghost rest = self.candidates_iter.remaining();
            proof {
                lemma_remaining_are_entries(self.candidates_iter);
            }
            match self.candidates_iter.next() {
                None => {
                    assert(all.dom() =~= Set::<u32>::empty());
                    return None;
                },
                Some(candidate) => {
                    assert(rest.dom().contains(candidate.pos.0));
                    if any_parent_in(&candidate, &self.roots) {
                        assert(self.remaining() =~= all.remove(candidate.pos.0));
                        assert(self.candidates_iter.remaining() =~= below(
                            candidates,
                            candidate.pos.0,
                        ));
                        return Some(candidate);
                    }
                    assert(self.remaining() =~= all);
                },
            }
        }
    }
}

/// Whether a parent of the entry is at one of the positions.
pub fn any_parent_in<'index>(entry: &IndexEntry<'index>, positions: &HashSet<u32>) -> (any: bool)
    requires
        entry.wf(),
    ensures
        any == has_parent_in(*entry, positions@),
{
    let parents = entry.parent_positions();
    let ghost numbers = entry.commit().parents;
    for i in 0..parents.len()
        invariant
            index::position_numbers(parents@) == numbers,
            numbers == entry.commit().parents,
            forall|j: int| 0 <= j < i ==> !positions@.contains(#[trigger] numbers[j]),
    {
        assert(numbers[i as int] == parents@[i as int].0);
        if positions.contains(&parents[i].0) {
            assert(numbers.contains(numbers[i as int]));
            return true;
        }
    }
    assert forall|p: u32| #[trigger] positions@.contains(p) implies !numbers.contains(p) by {
        if numbers.contains(p) {
            let j = choose|j: int| 0 <= j < numbers.len() && numbers[j] == p;
            assert(!positions@.contains(numbers[j]));
        }
    }
    false
}

impl<'a, 'index, P: PurePredicate<'index>> FilterRevsetIterator<'a, 'index, P> {
    /// The predicate has not matched the candidates above `p`, but might match lower ones.
    pub open spec fn none_above(self, p: u32) -> bool {
        forall|q: u32| #[trigger]
            self.candidates_iter.remaining().dom().contains(q) && q > p
                ==> self.predicate.model().outcome(
                self.candidates_iter.remaining()[q],
            ) is NotThisOne
    }

    /// The candidates down to `p` have been taken, and the predicate has been asked about them. No
    /// further candidate has been taken, nor has the predicate been asked about one.
    pub open spec fn taken_down_to(self, before: Self, p: u32) -> bool {
        &&& self.candidates_iter.remaining() == below(before.candidates_iter.remaining(), p)
        &&& self.predicate.model() == before.predicate.model().advance(p)
    }

    /// The iterator, which was `before`, has taken the candidates down to `last` and found that it
    /// has no entry: `last` is the lowest candidate, or the predicate has said of it that it will
    /// not match again.
    pub open spec fn ended_at(self, before: Self, last: IndexEntry<'index>) -> bool {
        &&& before.candidates_iter.remaining().contains_pair(last.pos.0, last)
        &&& before.none_above(last.pos.0)
        &&& self.taken_down_to(before, last.pos.0)
        &&& match before.predicate.model().outcome(last) {
            PredicateMatch::Match => false,
            PredicateMatch::NotThisOne => self.candidates_iter.remaining().dom().is_empty(),
            PredicateMatch::NeverAgain => true,
        }
    }

    /// The next candidate that the predicate matches. It stops at that candidate, or at the first
    /// of which the predicate says that it will not match again.
    pub fn next(&mut self) -> (entry: Option<IndexEntry<'index>>)
        requires
            old(self).wf(),
        ensures
            final(self).wf(),
            final(self).size() == old(self).size(),
            index::yields_next(old(self).remaining(), entry, final(self).remaining()),
            match entry {
                Some(x) => {
                    &&& old(self).predicate.model().outcome(x) is Match
                    &&& old(self).none_above(x.pos.0)
                    &&& final(self).taken_down_to(*old(self), x.pos.0)
                },
                None => {
                    ||| {
                        &&& old(self).candidates_iter.remaining().dom().is_empty()
                        &&& final(self).candidates_iter.remaining().dom().is_empty()
                        &&& final(self).predicate.model() == old(self).predicate.model()
                    }
                    ||| exists|last: IndexEntry<'index>| #[trigger]
                        final(self).ended_at(*old(self), last)
                },
            },
        decreases old(self).size(),
    {
        let ghost all = self.remaining();
        let ghost before = *self;
        let ghost candidates = self.candidates_iter.remaining();
        let ghost model = self.predicate.model();
        // The last candidate that has been taken.
        let ghost mut last: Option<IndexEntry<'index>> = None;
        proof {
            lemma_positions_finite(self.candidates_iter.remaining().dom());
        }
        loop
            invariant
                self.wf(),
                self.size() == old(self).size(),
                self.remaining() == all,
                all == old(self).remaining(),
                before == *old(self),
                candidates == before.candidates_iter.remaining(),
                model == before.predicate.model(),
                self.candidates_iter.remaining().dom().finite(),
                match last {
                    None => {
                        &&& self.candidates_iter.remaining() == candidates
                        &&& self.predicate.model() == model
                    },
                    Some(last) => {
                        &&& candidates.contains_pair(last.pos.0, last)
                        &&& model.outcome(last) is NotThisOne
                        &&& before.none_above(last.pos.0)
                        &&& self.taken_down_to(before, last.pos.0)
                    },
                },
            decreases self.candidates_iter.remaining().len(),
        {
            let ghost rest = self.candidates_iter.remaining();
            let ghost rest_model = self.predicate.model();
            proof {
                lemma_remaining_are_entries(self.candidates_iter);
            }
            match self.candidates_iter.next() {
                None => {
                    proof {
                        assert(all.dom() =~= Set::<u32>::empty());
                        if let Some(entry) = last {
                            assert(self.ended_at(before, entry));
                        }
                    }
                    return None;
                },
                Some(candidate) => {
                    let p = candidate.pos.0;
                    let matched = self.predicate.test(&candidate);
                    proof {
                        assert(rest.dom().contains(p));
                        assert forall|q: u32| #[trigger]
                            self.candidates_iter.remaining().dom().contains(q) implies {
                            &&& self.predicate.model().outcome(rest[q]) == rest_model.outcome(
                                rest[q],
                            )
                            &&& self.predicate.model().is_defined(rest[q])
                        } by {
                            predicate::law_entries_can_be_skipped(rest_model, p, rest[q]);
                        }
                        if let Some(entry) = last {
                            predicate::law_entries_can_be_skipped(model, entry.pos.0, candidate);
                            predicate::law_asked_further_down(model, entry.pos.0, p);
                        }
                        assert(matched == model.outcome(candidate));
                        assert(self.candidates_iter.remaining() =~= below(candidates, p));
                        assert(self.taken_down_to(before, p));
                        assert(before.none_above(p)) by {
                            assert forall|q: u32| #[trigger]
                                candidates.dom().contains(q) && q > p implies model.outcome(
                                candidates[q],
                            ) is NotThisOne by {
                                assert(!rest.dom().contains(q));
                            }
                        }
                    }
                    match matched {
                        PredicateMatch::Match => {
                            assert(self.remaining() =~= all.remove(p));
                            return Some(candidate);
                        },
                        PredicateMatch::NotThisOne => {
                            assert(self.remaining() =~= all);
                            proof {
                                last = Some(candidate);
                            }
                        },
                        PredicateMatch::NeverAgain => {
                            proof {
                                assert forall|q: u32| rest.dom().contains(q) implies !(
                                rest_model.outcome(#[trigger] rest[q]) is Match) by {
                                    predicate::law_never_again(rest_model, candidate, rest[q]);
                                }
                                assert(all.dom() =~= Set::<u32>::empty());
                                assert(self.remaining() =~= all);
                                assert(self.ended_at(before, candidate));
                            }
                            return None;
                        },
                    }
                },
            }
        }
    }
}

/// A predicate that matches the entries of the iterator, asked about entries in descending order
/// of position.
pub fn predicate_fn_from_iter<'a, 'index, P: PurePredicate<'index>>(
    iter: RevsetIterator<'a, 'index, P>,
) -> (test: PredicateFn<'a, 'index, P>)
    requires
        iter.wf(),
    ensures
        test.wf(),
        test.model() == PredicateModel::<P>::Members(iter.remaining().dom()),
{
    PredicateFn::FromIter(Box::new(Peekable::new(iter)))
}

impl<'a, 'index, P: PurePredicate<'index>> Peekable<'a, 'index, P> {
    /// Whether the entry is the next one, once those at higher positions have been passed.
    pub fn test(&mut self, entry: &IndexEntry<'index>) -> (result: PredicateMatch)
        requires
            old(self).wf(),
        ensures
            final(self).wf(),
            final(self).size() == old(self).size(),
            result == PredicateModel::<P>::Members(old(self).remaining().dom()).outcome(
                *entry,
            ),
            final(self).remaining() == old(self).remaining().restrict(
                Set::new(|p: u32| p < entry.pos.0),
            ),
        decreases 1 + old(self).size(),
    {
        let ghost all = self.remaining();
        let pos = entry.position();
        let ghost below = all.restrict(Set::new(|p: u32| p < pos.0));
        proof {
            lemma_positions_finite(self.remaining().dom());
        }
        loop
            invariant
                self.wf(),
                self.size() == old(self).size(),
                all == old(self).remaining(),
                pos == entry.pos,
                below == all.restrict(Set::new(|p: u32| p < pos.0)),
                self.remaining().dom().finite(),
                forall|p: u32| #[trigger] self.remaining().dom().contains(p) ==> all.contains_pair(
                    p,
                    self.remaining()[p],
                ),
                forall|p: u32|
                    p <= pos.0 && #[trigger] all.dom().contains(p)
                        ==> self.remaining().dom().contains(p),
            decreases self.remaining().len(),
        {
            match self.peek() {
                None => {
                    assert(self.remaining() =~= below);
                    return PredicateMatch::NeverAgain;
                },
                Some(next) => {
                    if next.position().0 > pos.0 {
                        self.next();
                    } else if next.position() == pos {
                        self.next();
                        assert(self.remaining() =~= below);
                        return PredicateMatch::Match;
                    } else {
                        assert(self.remaining() =~= below);
                        assert(all.dom().contains(next.pos.0));
                        return PredicateMatch::NotThisOne;
                    }
                },
            }
        }
    }
}

impl<'a, 'index, P: PurePredicate<'index>> PredicateFn<'a, 'index, P> {
    /// What the predicate says of the entry.
    pub fn test(&mut self, entry: &IndexEntry<'index>) -> (result: PredicateMatch)
        requires
            old(self).wf(),
            entry.wf(),
            old(self).model().is_defined(*entry),
        ensures
            final(self).wf(),
            final(self).size() == old(self).size(),
            result == old(self).model().outcome(*entry),
            final(self).model() == old(self).model().advance(entry.pos.0),
        decreases old(self).size(),
    {
        match self {
            PredicateFn::FromIter(iter) => {
                let ghost all = iter.remaining();
                let result = iter.test(entry);
                assert(result == old(self).model().outcome(*entry));
                assert(iter.remaining().dom() =~= all.dom().filter(|p: u32| p < entry.pos.0));
                result
            },
            PredicateFn::Pure(test) => {
                test.test(entry)
            },
            PredicateFn::And(first, second) => {
                let result = first.test(entry);
                result.and(second.test(entry))
            },
            PredicateFn::Or(first, second) => {
                let result = first.test(entry);
                result.or(second.test(entry))
            },
            PredicateFn::AndNot(first, second) => {
                let result = first.test(entry);
                result.and_not(second.test(entry))
            },
        }
    }
}

/// There is one descending order of the entries of a set: whichever way a set was put together, it
/// iterates in the same order.
pub proof fn law_one_descending_order<'index>(
    first: Seq<IndexEntry<'index>>,
    second: Seq<IndexEntry<'index>>,
)
    requires
        is_descending(first),
        is_descending(second),
        entry_map(first) == entry_map(second),
    ensures
        first == second,
    decreases first.len(),
{
    lemma_entry_map_step(first);
    lemma_entry_map_step(second);
    if first.len() > 0 {
        lemma_entry_map(first, 0);
    }
    if second.len() > 0 {
        lemma_entry_map(second, 0);
    }
    if first.len() > 0 && second.len() > 0 {
        assert(first[0].pos.0 == second[0].pos.0);
        law_one_descending_order(first.skip(1), second.skip(1));
        assert(first =~= seq![first[0]] + first.skip(1));
        assert(second =~= seq![second[0]] + second.skip(1));
    } else {
        assert(first =~= second);
    }
}

} // verus!
