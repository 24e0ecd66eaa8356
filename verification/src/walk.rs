//! Walks from commits to their ancestors.

use crate::graph;
use crate::index;
use crate::index::{CompositeIndex, IndexEntry, IndexPosition};
use crate::object_id::CommitId;
use core::ops::Range;
use vstd::prelude::*;

verus! {

/// The positions that are listed.
pub open spec fn position_set(positions: Seq<IndexPosition>) -> Set<u32> {
    Set::new(|p: u32| exists|i: int| 0 <= i < positions.len() && (#[trigger] positions[i]).0 == p)
}

/// The positions that are marked.
pub open spec fn marked_set(marks: Seq<bool>) -> Set<u32> {
    Set::new(|p: u32| p < marks.len() && marks[p as int])
}

/// A vector of unset marks.
fn no_marks(len: u32) -> (marks: Vec<bool>)
    ensures
        marks@.len() == len,
        marked_set(marks@) == Set::<u32>::empty(),
{
    let mut marks: Vec<bool> = Vec::with_capacity(len as usize);
    for i in 0..len
        invariant
            marks@.len() == i,
            forall|j: int| 0 <= j < i ==> !marks@[j],
    {
        marks.push(false);
    }
    assert(marked_set(marks@) =~= Set::<u32>::empty());
    marks
}

/// Sets the marks of the listed positions.
fn mark_all(marks: &mut Vec<bool>, positions: &Vec<IndexPosition>)
    requires
        forall|i: int| 0 <= i < positions@.len() ==> (#[trigger] positions@[i]).0 < old(marks)@.len(),
    ensures
        final(marks)@.len() == old(marks)@.len(),
        marked_set(final(marks)@) == marked_set(old(marks)@).union(position_set(positions@)),
{
    let ghost before = marks@;
    for i in 0..positions.len()
        invariant
            marks@.len() == before.len(),
            forall|j: int| 0 <= j < positions@.len() ==> (#[trigger] positions@[j]).0 < before.len(),
            forall|p: int|
                0 <= p < before.len() ==> #[trigger] marks@[p] == (before[p] || exists|j: int|
                    0 <= j < i && (#[trigger] positions@[j]).0 == p),
    {
        let p = positions[i].0 as usize;
        marks.set(p, true);
    }
    assert(marked_set(marks@) =~= marked_set(before).union(position_set(positions@)));
}

/// Marks the ancestors of the heads.
fn mark_ancestors(index: &CompositeIndex, heads: &Vec<IndexPosition>) -> (marks: Vec<bool>)
    requires
        index.wf(),
        forall|i: int| 0 <= i < heads@.len() ==> (#[trigger] heads@[i]).0 < index@.len(),
    ensures
        marks@.len() == index@.len(),
        marked_set(marks@) == graph::ancestors(index@, position_set(heads@)),
{
    let len = index.num_commits();
    let ghost head_set = position_set(heads@);
    let ghost all = graph::ancestors(index@, head_set);
    let mut marks = no_marks(len);
    mark_all(&mut marks, heads);
    proof {
        graph::lemma_ancestors_closed(index@, head_set);
        assert(marked_set(marks@) =~= head_set);
    }
    let mut next: u32 = len;
    while next > 0
        invariant
            index.wf(),
            len == index@.len(),
            marks@.len() == len,
            next <= len,
            all == graph::ancestors(index@, head_set),
            head_set.subset_of(marked_set(marks@)),
            marked_set(marks@).subset_of(all),
            forall|child: u32, p: u32|
                next <= child && marked_set(marks@).contains(child) && #[trigger] graph::is_parent(
                    index@,
                    child,
                    p,
                ) ==> marked_set(marks@).contains(p),
        decreases next,
    {
        next = next - 1;
        if marks[next as usize] {
            let ghost before = marked_set(marks@);
            let parents = index.entry_by_pos(IndexPosition(next)).parent_positions();
            let ghost numbers = index@[next as int].parents;
            proof {
                graph::lemma_ancestors_closed(index@, head_set);
                assert(index::position_numbers(parents@) == numbers);
                assert forall|i: int| 0 <= i < parents@.len() implies (
                #[trigger] parents@[i]).0 < next && graph::is_parent(
                    index@,
                    next,
                    parents@[i].0,
                ) by {
                    assert(numbers[i] == parents@[i].0);
                    assert(index@[next as int].parents[i] < next);
                }
            }
            mark_all(&mut marks, parents);
            proof {
                let after = marked_set(marks@);
                assert(before.contains(next));
                assert forall|child: u32, p: u32|
                    next <= child && after.contains(child) && #[trigger] graph::is_parent(
                        index@,
                        child,
                        p,
                    ) implies after.contains(p) by {
                    if child == next {
                        let i = choose|i: int| 0 <= i < numbers.len() && numbers[i] == p;
                        assert(parents@[i].0 == p);
                    } else {
                        assert(before.contains(child));
                    }
                }
            }
        }
    }
    proof {
        graph::lemma_ancestors_least(index@, head_set, marked_set(marks@));
        assert(marked_set(marks@) =~= all);
    }
    marks
}

/// Marks the parents of the marked commits.
fn mark_parents(index: &CompositeIndex, children: &Vec<bool>) -> (marks: Vec<bool>)
    requires
        index.wf(),
        children@.len() == index@.len(),
    ensures
        marks@.len() == index@.len(),
        marked_set(marks@) == graph::parents_of(index@, marked_set(children@)),
{
    let len = index.num_commits();
    let mut marks = no_marks(len);
    for child in 0..len
        invariant
            index.wf(),
            len == index@.len(),
            children@.len() == len,
            marks@.len() == len,
            forall|p: u32|
                #[trigger] marked_set(marks@).contains(p) <==> exists|c: u32|
                    c < child && marked_set(children@).contains(c) && #[trigger] graph::is_parent(
                        index@,
                        c,
                        p,
                    ),
    {
        let ghost before = marked_set(marks@);
        if children[child as usize] {
            let parents = index.entry_by_pos(IndexPosition(child)).parent_positions();
            let ghost numbers = index@[child as int].parents;
            proof {
                assert(index::position_numbers(parents@) == numbers);
                assert forall|i: int| 0 <= i < parents@.len() implies (
                #[trigger] parents@[i]).0 < len && graph::is_parent(
                    index@,
                    child,
                    parents@[i].0,
                ) by {
                    assert(numbers[i] == parents@[i].0);
                    assert(index@[child as int].parents[i] < child);
                }
            }
            mark_all(&mut marks, parents);
            proof {
                assert(marked_set(children@).contains(child));
                assert forall|p: u32|
                    #[trigger] marked_set(marks@).contains(p) <==> before.contains(p)
                        || graph::is_parent(index@, child, p) by {
                    if graph::is_parent(index@, child, p) {
                        let i = choose|i: int| 0 <= i < numbers.len() && numbers[i] == p;
                        assert(parents@[i].0 == p);
                        assert(position_set(parents@).contains(p));
                    }
                }
            }
        }
        assert forall|p: u32|
            #[trigger] marked_set(marks@).contains(p) <==> exists|c: u32|
                c < child + 1 && marked_set(children@).contains(c) && #[trigger] graph::is_parent(
                    index@,
                    c,
                    p,
                ) by {
            if marked_set(marks@).contains(p) {
                if before.contains(p) {
                    let c = choose|c: u32|
                        c < child && marked_set(children@).contains(c)
                            && #[trigger] graph::is_parent(index@, c, p);
                    assert(c < child + 1 && graph::is_parent(index@, c, p));
                } else {
                    assert(graph::is_parent(index@, child, p));
                }
            }
            if exists|c: u32|
                c < child + 1 && marked_set(children@).contains(c) && #[trigger] graph::is_parent(
                    index@,
                    c,
                    p,
                ) {
                let c = choose|c: u32|
                    c < child + 1 && marked_set(children@).contains(c)
                        && #[trigger] graph::is_parent(index@, c, p);
                if c < child {
                    assert(before.contains(p));
                }
            }
        }
    }
    assert(marked_set(marks@) =~= graph::parents_of(index@, marked_set(children@)));
    marks
}

/// The marks of both vectors.
fn union_marks(marks: &mut Vec<bool>, others: &Vec<bool>)
    requires
        old(marks)@.len() == others@.len(),
    ensures
        final(marks)@.len() == old(marks)@.len(),
        marked_set(final(marks)@) == marked_set(old(marks)@).union(marked_set(others@)),
{
    let ghost before = marks@;
    for i in 0..others.len()
        invariant
            before.len() == others@.len(),
            marks@.len() == before.len(),
            forall|j: int| 0 <= j < i ==> #[trigger] marks@[j] == (before[j] || others@[j]),
            forall|j: int| i <= j < before.len() ==> #[trigger] marks@[j] == before[j],
    {
        if others[i] {
            marks.set(i, true);
        }
    }
    assert(marked_set(marks@) =~= marked_set(before).union(marked_set(others@)));
}

/// The marks of the first vector that the second does not have.
fn difference_marks(marks: &mut Vec<bool>, others: &Vec<bool>)
    requires
        old(marks)@.len() == others@.len(),
    ensures
        final(marks)@.len() == old(marks)@.len(),
        marked_set(final(marks)@) == marked_set(old(marks)@).difference(marked_set(others@)),
{
    let ghost before = marks@;
    for i in 0..others.len()
        invariant
            before.len() == others@.len(),
            marks@.len() == before.len(),
            forall|j: int| 0 <= j < i ==> #[trigger] marks@[j] == (before[j] && !others@[j]),
            forall|j: int| i <= j < before.len() ==> #[trigger] marks@[j] == before[j],
    {
        if others[i] {
            marks.set(i, false);
        }
    }
    assert(marked_set(marks@) =~= marked_set(before).difference(marked_set(others@)));
}

/// Marks the commits to which some path of a number of steps in the range leads from a head.
fn mark_generations(
    index: &CompositeIndex,
    heads: &Vec<IndexPosition>,
    generation: &Range<u64>,
) -> (marks: Vec<bool>)
    requires
        index.wf(),
        forall|i: int| 0 <= i < heads@.len() ==> (#[trigger] heads@[i]).0 < index@.len(),
    ensures
        marks@.len() == index@.len(),
        marked_set(marks@) == graph::ancestors_within(
            index@,
            position_set(heads@),
            generation.start as nat,
            generation.end as nat,
        ),
{
    let len = index.num_commits();
    let ghost head_set = position_set(heads@);
    let mut marks = no_marks(len);
    let mut level = no_marks(len);
    mark_all(&mut level, heads);
    assert(marked_set(level@) =~= head_set);
    let mut depth: u64 = 0;
    while depth < generation.end && depth < len as u64
        invariant
            index.wf(),
            len == index@.len(),
            marks@.len() == len,
            level@.len() == len,
            depth <= len,
            forall|p: u32|
                #[trigger] marked_set(level@).contains(p) <==> graph::at_generation(
                    index@,
                    head_set,
                    depth as nat,
                    p,
                ),
            forall|p: u32|
                #[trigger] marked_set(marks@).contains(p) <==> exists|n: nat|
                    generation.start <= n < depth && graph::at_generation(index@, head_set, n, p),
            depth <= generation.end,
        decreases len - depth,
    {
        let ghost before = marked_set(marks@);
        if depth >= generation.start {
            union_marks(&mut marks, &level);
        }
        let parents = mark_parents(index, &level);
        proof {
            assert forall|p: u32|
                #[trigger] marked_set(marks@).contains(p) <==> exists|n: nat|
                    generation.start <= n < depth + 1 && graph::at_generation(
                        index@,
                        head_set,
                        n,
                        p,
                    ) by {
                if marked_set(marks@).contains(p) {
                    if before.contains(p) {
                        let n = choose|n: nat|
                            generation.start <= n < depth && graph::at_generation(
                                index@,
                                head_set,
                                n,
                                p,
                            );
                        assert(generation.start <= n < depth + 1 && graph::at_generation(
                            index@,
                            head_set,
                            n,
                            p,
                        ));
                    } else {
                        assert(marked_set(level@).contains(p));
                        assert(graph::at_generation(index@, head_set, depth as nat, p));
                    }
                }
                if exists|n: nat|
                    generation.start <= n < depth + 1 && graph::at_generation(
                        index@,
                        head_set,
                        n,
                        p,
                    ) {
                    let n = choose|n: nat|
                        generation.start <= n < depth + 1 && graph::at_generation(
                            index@,
                            head_set,
                            n,
                            p,
                        );
                    if n < depth {
                        assert(before.contains(p));
                    } else {
                        assert(marked_set(level@).contains(p));
                    }
                }
            }
            assert forall|p: u32|
                #[trigger] marked_set(parents@).contains(p) <==> graph::at_generation(
                    index@,
                    head_set,
                    (depth + 1) as nat,
                    p,
                ) by {
                if marked_set(parents@).contains(p) {
                    let c = choose|c: u32|
                        marked_set(level@).contains(c) && #[trigger] graph::is_parent(index@, c, p);
                    assert(graph::at_generation(index@, head_set, depth as nat, c));
                }
                if graph::at_generation(index@, head_set, (depth + 1) as nat, p) {
                    let c = choose|c: u32|
                        graph::at_generation(index@, head_set, depth as nat, c)
                            && #[trigger] graph::is_parent(index@, c, p);
                    assert(marked_set(level@).contains(c));
                }
            }
        }
        level = parents;
        depth = depth + 1;
    }
    proof {
        let wanted = graph::ancestors_within(
            index@,
            head_set,
            generation.start as nat,
            generation.end as nat,
        );
        assert forall|p: u32| wanted.contains(p) implies marked_set(marks@).contains(p) by {
            let n = choose|n: nat|
                generation.start as nat <= n < generation.end as nat && graph::at_generation(
                    index@,
                    head_set,
                    n,
                    p,
                );
            graph::lemma_generation_bound(index@, head_set, n, p, len as int);
            assert(n < depth);
        }
        assert forall|p: u32| marked_set(marks@).contains(p) implies wanted.contains(p) by {
            let n = choose|n: nat|
                generation.start <= n < depth && graph::at_generation(index@, head_set, n, p);
            assert(generation.start as nat <= n < generation.end as nat);
        }
        assert(marked_set(marks@) =~= wanted);
    }
    marks
}

/// A walk over the ancestors of some commits that are not ancestors of others.
#[derive(Debug)]
pub struct RevWalk<'index> {
    index: &'index CompositeIndex,
    heads: Vec<IndexPosition>,
    roots: Vec<IndexPosition>,
    generation: Option<Range<u64>>,
}

impl<'index> View for RevWalk<'index> {
    type V = Set<u32>;

    /// The positions that the walk passes.
    closed spec fn view(&self) -> Set<u32> {
        let wanted = match self.generation {
            None => graph::ancestors(self.index@, position_set(self.heads@)),
            Some(generation) => graph::ancestors_within(
                self.index@,
                position_set(self.heads@),
                generation.start as nat,
                generation.end as nat,
            ),
        };
        wanted.difference(graph::ancestors(self.index@, position_set(self.roots@)))
    }
}

impl<'index> RevWalk<'index> {
    /// The index that the walk is over.
    pub closed spec fn walked_index(&self) -> &'index CompositeIndex {
        self.index
    }

    /// The positions that the walk starts from.
    pub closed spec fn head_set(&self) -> Set<u32> {
        position_set(self.heads@)
    }

    /// The positions whose ancestors the walk leaves out.
    pub closed spec fn root_set(&self) -> Set<u32> {
        position_set(self.roots@)
    }

    /// The walk is one over commits of its index.
    pub closed spec fn wf(&self) -> bool {
        &&& self.index.wf()
        &&& forall|i: int|
            0 <= i < self.heads@.len() ==> (#[trigger] self.heads@[i]).0 < self.index@.len()
        &&& forall|i: int|
            0 <= i < self.roots@.len() ==> (#[trigger] self.roots@[i]).0 < self.index@.len()
    }

    /// Keeps of the walk what some path of a number of steps in the range leads to from a head.
    pub fn filter_by_generation(self, generation: Range<u64>) -> (walk: RevWalk<'index>)
        requires
            self.wf(),
        ensures
            walk.wf(),
            walk.walked_index() == self.walked_index(),
            walk.head_set() == self.head_set(),
            walk.root_set() == self.root_set(),
            walk@ == graph::ancestors_within(
                self.walked_index()@,
                self.head_set(),
                generation.start as nat,
                generation.end as nat,
            ).difference(graph::ancestors(self.walked_index()@, self.root_set())),
    {
        RevWalk {
            index: self.index,
            heads: self.heads,
            roots: self.roots,
            generation: Some(generation),
        }
    }
}

impl<'index> RevWalk<'index> {
    /// Starts the walk.
    pub fn iter(&self) -> (iter: RevWalkIterator<'index>)
        requires
            self.wf(),
        ensures
            iter.wf(),
            iter@ == index::entries_of(self.walked_index(), self@),
    {
        let mut marks = match &self.generation {
            None => mark_ancestors(self.index, &self.heads),
            Some(generation) => mark_generations(self.index, &self.heads, generation),
        };
        let unwanted = mark_ancestors(self.index, &self.roots);
        difference_marks(&mut marks, &unwanted);
        let end = self.index.num_commits();
        let iter = RevWalkIterator { index: self.index, marks, end };
        assert(iter@ =~= index::entries_of(self.index, self@));
        iter
    }
}

/// The rest of a walk.
#[derive(Debug)]
pub struct RevWalkIterator<'index> {
    index: &'index CompositeIndex,
    // The positions of the walk.
    marks: Vec<bool>,
    // What is not below has been passed.
    end: u32,
}

impl<'index> View for RevWalkIterator<'index> {
    type V = Map<u32, IndexEntry<'index>>;

    /// The entries that are still to come.
    closed spec fn view(&self) -> Map<u32, IndexEntry<'index>> {
        Map::new(
            |p: u32| p < self.end && self.marks@[p as int],
            |p: u32| index::entry_at(self.index, p),
        )
    }
}

impl<'index> RevWalkIterator<'index> {
    pub closed spec fn wf(&self) -> bool {
        &&& self.index.wf()
        &&& self.end <= self.marks@.len() == self.index@.len()
    }

    pub proof fn lemma_entries(&self)
        requires
            self.wf(),
        ensures
            index::are_entries(self@),
    {
    }

    /// The next entry of the walk.
    pub fn next(&mut self) -> (entry: Option<IndexEntry<'index>>)
        requires
            old(self).wf(),
        ensures
            final(self).wf(),
            index::yields_next(old(self)@, entry, final(self)@),
    {
        let ghost before = self@;
        while self.end > 0
            invariant
                self.wf(),
                self@ == before,
                before == old(self)@,
            decreases self.end,
        {
            assert(forall|q: u32| #[trigger] before.dom().contains(q) ==> q < self.end);
            self.end = self.end - 1;
            let p = self.end;
            if self.marks[p as usize] {
                assert(self@ =~= before.remove(p));
                return Some(self.index.entry_by_pos(IndexPosition(p)));
            }
            assert(self@ =~= before);
        }
        assert(before.dom() =~= Set::<u32>::empty());
        None
    }
}

impl CompositeIndex {
    /// The positions of the commits with the identifiers.
    fn resolve_ids(&self, ids: &[CommitId]) -> (positions: Vec<IndexPosition>)
        requires
            self.wf(),
            index::are_indexed(self@, ids@),
        ensures
            forall|i: int|
                0 <= i < positions@.len() ==> (#[trigger] positions@[i]).0 < self@.len(),
            position_set(positions@) == index::positions_of(self@, ids@),
    {
        let mut positions: Vec<IndexPosition> = Vec::with_capacity(ids.len());
        for i in 0..ids.len()
            invariant
                self.wf(),
                index::are_indexed(self@, ids@),
                positions@.len() == i,
                forall|j: int|
                    0 <= j < i ==> (#[trigger] positions@[j]).0 < self@.len()
                        && self@[positions@[j].0 as int].commit_id == ids@[j]@,
        {
            assert(index::is_indexed(self@, ids@[i as int]@));
            positions.push(self.commit_id_to_pos(&ids[i]).unwrap());
        }
        proof {
            assert forall|p: u32|
                position_set(positions@).contains(p) <==> index::positions_of(
                    self@,
                    ids@,
                ).contains(p) by {
                if position_set(positions@).contains(p) {
                    let i = choose|i: int|
                        0 <= i < positions@.len() && (#[trigger] positions@[i]).0 == p;
                    assert(ids@[i]@ == self@[p as int].commit_id);
                }
                if index::positions_of(self@, ids@).contains(p) {
                    let i = choose|i: int|
                        0 <= i < ids@.len() && (#[trigger] ids@[i])@ == self@[p as int].commit_id;
                    assert(self@[positions@[i].0 as int].commit_id == self@[p as int].commit_id);
                    assert(positions@[i].0 == p);
                }
            }
            assert(position_set(positions@) =~= index::positions_of(self@, ids@));
        }
        positions
    }

    /// A walk over the ancestors of the wanted commits that are not ancestors of unwanted ones.
    pub fn walk_revs<'index>(
        &'index self,
        wanted: &[CommitId],
        unwanted: &[CommitId],
    ) -> (walk: RevWalk<'index>)
        requires
            self.wf(),
            index::are_indexed(self@, wanted@),
            index::are_indexed(self@, unwanted@),
        ensures
            walk.wf(),
            walk.walked_index() == self,
            walk.head_set() == index::positions_of(self@, wanted@),
            walk.root_set() == index::positions_of(self@, unwanted@),
            walk@ == graph::ancestors(
                self@,
                index::positions_of(self@, wanted@),
            ).difference(graph::ancestors(self@, index::positions_of(self@, unwanted@))),
    {
        RevWalk {
            index: self,
            heads: self.resolve_ids(wanted),
            roots: self.resolve_ids(unwanted),
            generation: None,
        }
    }

    /// The identifiers of the candidates that are no ancestor of another candidate, each once, in
    /// ascending order of position.
    pub fn heads(&self, candidate_ids: &[CommitId]) -> (head_ids: Vec<CommitId>)
        requires
            self.wf(),
            index::are_indexed(self@, candidate_ids@),
        ensures
            index::are_indexed(self@, head_ids@),
            index::positions_of(self@, head_ids@) == graph::heads_of(
                self@,
                index::positions_of(self@, candidate_ids@),
            ),
            forall|i: int, j: int|
                #![trigger head_ids@[i], head_ids@[j]]
                0 <= i < j < head_ids@.len() ==> index::position_of(self@, head_ids@[i]@)
                    < index::position_of(self@, head_ids@[j]@),
    {
        let len = self.num_commits();
        let positions = self.resolve_ids(candidate_ids);
        let ghost candidates = position_set(positions@);
        let mut marks = no_marks(len);
        mark_all(&mut marks, &positions);
        assert(marked_set(marks@) =~= candidates);
        let parents = marked_positions(&mark_parents(self, &marks), len);
        let below = mark_ancestors(self, &parents);
        difference_marks(&mut marks, &below);
        let heads = marked_positions(&marks, len);
        proof {
            let graph = self@;
            let direct = graph::parents_of(graph, candidates);
            assert forall|p: u32|
                candidates.difference(graph::ancestors(graph, direct)).contains(p)
                    <==> graph::heads_of(graph, candidates).contains(p) by {
                graph::lemma_strict_ancestors(graph, candidates, p);
            }
            assert(position_set(heads@) =~= graph::heads_of(graph, candidates));
        }
        let head_ids = self.ids_at(&heads);
        proof {
            assert forall|i: int, j: int|
                #![trigger head_ids@[i], head_ids@[j]]
                0 <= i < j < head_ids@.len() implies index::position_of(self@, head_ids@[i]@)
                < index::position_of(self@, head_ids@[j]@) by {
                index::lemma_position_of(self@, head_ids@[i]@, heads@[i].0 as int);
                index::lemma_position_of(self@, head_ids@[j]@, heads@[j].0 as int);
            }
        }
        head_ids
    }

    /// The identifiers of the commits at the positions, in their order.
    fn ids_at(&self, positions: &Vec<IndexPosition>) -> (ids: Vec<CommitId>)
        requires
            self.wf(),
            forall|i: int|
                0 <= i < positions@.len() ==> (#[trigger] positions@[i]).0 < self@.len(),
        ensures
            index::are_indexed(self@, ids@),
            index::positions_of(self@, ids@) == position_set(positions@),
            ids@.len() == positions@.len(),
            forall|i: int|
                0 <= i < ids@.len() ==> (#[trigger] ids@[i])@
                    == self@[positions@[i].0 as int].commit_id,
    {
        let mut ids: Vec<CommitId> = Vec::with_capacity(positions.len());
        for i in 0..positions.len()
            invariant
                self.wf(),
                forall|j: int|
                    0 <= j < positions@.len() ==> (#[trigger] positions@[j]).0 < self@.len(),
                ids@.len() == i,
                forall|j: int|
                    0 <= j < i ==> (#[trigger] ids@[j])@ == self@[positions@[j].0 as int].commit_id,
        {
            ids.push(self.entry_by_pos(positions[i]).commit_id());
        }
        proof {
            index::lemma_ids_of_positions(self@, ids@, index::position_numbers(positions@));
            assert forall|p: u32|
                index::position_numbers(positions@).contains(p) <==> position_set(
                    positions@,
                ).contains(p) by {
                let numbers = index::position_numbers(positions@);
                if position_set(positions@).contains(p) {
                    let i = choose|i: int|
                        0 <= i < positions@.len() && (#[trigger] positions@[i]).0 == p;
                    assert(numbers[i] == p);
                }
                if numbers.contains(p) {
                    let i = choose|i: int| 0 <= i < numbers.len() && numbers[i] == p;
                    assert(positions@[i].0 == p);
                }
            }
            assert(index::positions_of(self@, ids@) =~= position_set(positions@));
        }
        ids
    }
}

/// The positions that are marked, in ascending order.
fn marked_positions(marks: &Vec<bool>, len: u32) -> (positions: Vec<IndexPosition>)
    requires
        marks@.len() == len,
    ensures
        forall|i: int| 0 <= i < positions@.len() ==> (#[trigger] positions@[i]).0 < len,
        position_set(positions@) == marked_set(marks@),
        forall|i: int, j: int|
            #![trigger positions@[i], positions@[j]]
            0 <= i < j < positions@.len() ==> positions@[i].0 < positions@[j].0,
{
    let mut positions: Vec<IndexPosition> = Vec::new();
    for p in 0..len
        invariant
            marks@.len() == len,
            forall|i: int| 0 <= i < positions@.len() ==> (#[trigger] positions@[i]).0 < p,
            forall|i: int, j: int|
                #![trigger positions@[i], positions@[j]]
                0 <= i < j < positions@.len() ==> positions@[i].0 < positions@[j].0,
            forall|q: u32|
                #[trigger] position_set(positions@).contains(q) <==> q < p && marked_set(
                    marks@,
                ).contains(q),
    {
        let ghost before = positions@;
        if marks[p as usize] {
            positions.push(IndexPosition(p));
            assert forall|q: u32|
                #[trigger] position_set(positions@).contains(q) <==> position_set(before).contains(
                    q,
                ) || q == p by {
                if position_set(before).contains(q) {
                    let i = choose|i: int| 0 <= i < before.len() && (#[trigger] before[i]).0 == q;
                    assert(positions@[i].0 == q);
                }
                assert(positions@[before.len() as int].0 == p);
            }
        }
    }
    assert(position_set(positions@) =~= marked_set(marks@));
    positions
}

} // verus!
