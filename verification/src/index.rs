//! The index of commits.

use crate::graph;
use crate::graph::IndexedCommit;
use crate::object_id;
use crate::object_id::{ChangeId, CommitId, ObjectId};
use vstd::prelude::*;

verus! {

/// The position of a commit in the index. Parents have lower positions than their children.
#[derive(Debug, Clone, Copy, PartialEq, Eq, PartialOrd, Ord, Hash, Structural)]
pub struct IndexPosition(pub u32);

/// The numbers of the positions.
pub open spec fn position_numbers(positions: Seq<IndexPosition>) -> Seq<u32> {
    positions.map_values(|p: IndexPosition| p.0)
}

#[derive(Debug)]
struct CommitEntry {
    commit_id: CommitId,
    change_id: ChangeId,
    parents: Vec<IndexPosition>,
}

impl View for CommitEntry {
    type V = IndexedCommit;

    closed spec fn view(&self) -> IndexedCommit {
        IndexedCommit {
            commit_id: self.commit_id@,
            change_id: self.change_id@,
            parents: position_numbers(self.parents@),
        }
    }
}

/// The commits of a repository, each after its parents.
#[derive(Debug)]
pub struct CompositeIndex {
    commit_id_length: usize,
    change_id_length: usize,
    commits: Vec<CommitEntry>,
    // All positions, in the order of the identifiers of their commits.
    lookup: Vec<IndexPosition>,
}

/// Whether a commit has the identifier.
pub open spec fn is_indexed(graph: Seq<IndexedCommit>, id: Seq<u8>) -> bool {
    exists|p: int| 0 <= p < graph.len() && (#[trigger] graph[p]).commit_id == id
}

/// Whether each of the identifiers is that of a commit.
pub open spec fn are_indexed(graph: Seq<IndexedCommit>, ids: Seq<CommitId>) -> bool {
    forall|i: int| 0 <= i < ids.len() ==> is_indexed(graph, (#[trigger] ids[i])@)
}

/// The position of the commit with the identifier.
pub open spec fn position_of(graph: Seq<IndexedCommit>, id: Seq<u8>) -> u32 {
    (choose|p: int| 0 <= p < graph.len() && (#[trigger] graph[p]).commit_id == id) as u32
}

/// The positions of the commits with the identifiers.
pub open spec fn positions_of(graph: Seq<IndexedCommit>, ids: Seq<CommitId>) -> Set<u32> {
    Set::new(
        |p: u32|
            p < graph.len() && exists|i: int|
                0 <= i < ids.len() && (#[trigger] ids[i])@ == graph[p as int].commit_id,
    )
}

pub proof fn lemma_position_of(graph: Seq<IndexedCommit>, id: Seq<u8>, p: int)
    requires
        graph::is_graph(graph),
        0 <= p < graph.len(),
        graph[p].commit_id == id,
    ensures
        position_of(graph, id) == p,
{
    let q = choose|q: int| 0 <= q < graph.len() && (#[trigger] graph[q]).commit_id == id;
    assert(graph[q].commit_id == graph[p].commit_id);
}

/// Identifiers of the commits at some positions are those of just these positions.
pub proof fn lemma_ids_of_positions(
    graph: Seq<IndexedCommit>,
    ids: Seq<CommitId>,
    positions: Seq<u32>,
)
    requires
        graph::is_graph(graph),
        ids.len() == positions.len(),
        forall|i: int|
            0 <= i < ids.len() ==> #[trigger] positions[i] < graph.len() && ids[i]@
                == graph[positions[i] as int].commit_id,
    ensures
        are_indexed(graph, ids),
        forall|p: u32| positions_of(graph, ids).contains(p) <==> positions.contains(p),
{
    assert forall|i: int| 0 <= i < ids.len() implies is_indexed(graph, (#[trigger] ids[i])@) by {
        assert(graph[positions[i] as int].commit_id == ids[i]@);
    }
    assert forall|p: u32| positions_of(graph, ids).contains(p) <==> positions.contains(p) by {
        if positions_of(graph, ids).contains(p) {
            let i = choose|i: int|
                0 <= i < ids.len() && (#[trigger] ids[i])@ == graph[p as int].commit_id;
            assert(graph[positions[i] as int].commit_id == graph[p as int].commit_id);
            assert(positions[i] == p);
        }
        if positions.contains(p) {
            let i = choose|i: int| 0 <= i < positions.len() && positions[i] == p;
            assert(ids[i]@ == graph[p as int].commit_id);
        }
    }
}

impl View for CompositeIndex {
    type V = Seq<IndexedCommit>;

    closed spec fn view(&self) -> Seq<IndexedCommit> {
        self.commits@.map_values(|commit: CommitEntry| commit@)
    }
}

impl CompositeIndex {
    /// The number of bytes of each commit identifier.
    pub closed spec fn spec_commit_id_length(&self) -> usize {
        self.commit_id_length
    }

    /// The number of bytes of each change identifier.
    pub closed spec fn spec_change_id_length(&self) -> usize {
        self.change_id_length
    }

    spec fn is_looked_up(&self, p: int) -> bool {
        exists|i: int| 0 <= i < self.lookup@.len() && (#[trigger] self.lookup@[i]).0 == p
    }

    /// The lookup table holds every position once, in the order of the identifiers.
    pub closed spec fn lookup_is_sorted(&self) -> bool {
        &&& self.lookup@.len() == self.commits@.len()
        &&& forall|i: int|
            0 <= i < self.lookup@.len() ==> (#[trigger] self.lookup@[i]).0 < self@.len()
        &&& forall|i: int, j: int|
            0 <= i < j < self.lookup@.len() ==> object_id::lex_lt(
                self@[(#[trigger] self.lookup@[i]).0 as int].commit_id,
                self@[(#[trigger] self.lookup@[j]).0 as int].commit_id,
            )
        &&& forall|p: int| 0 <= p < self@.len() ==> #[trigger] self.is_looked_up(p)
    }

    /// The index holds a graph of commits, with identifiers of the lengths that it was made for.
    pub open spec fn wf(&self) -> bool {
        &&& graph::is_graph(self@)
        &&& forall|p: int|
            0 <= p < self@.len() ==> {
                &&& (#[trigger] self@[p]).commit_id.len() == self.spec_commit_id_length()
                &&& self@[p].change_id.len() == self.spec_change_id_length()
                &&& self@[p].parents.len() <= u32::MAX
            }
        &&& self.lookup_is_sorted()
    }

    /// An index without commits, for identifiers of the given numbers of bytes.
    pub fn full(commit_id_length: usize, change_id_length: usize) -> (index: Self)
        ensures
            index.wf(),
            index@.len() == 0,
            index.spec_commit_id_length() == commit_id_length,
            index.spec_change_id_length() == change_id_length,
    {
        CompositeIndex {
            commit_id_length,
            change_id_length,
            commits: Vec::new(),
            lookup: Vec::new(),
        }
    }

    /// The number of commits.
    pub fn num_commits(&self) -> (num: u32)
        requires
            self.wf(),
        ensures
            num == self@.len(),
    {
        self.commits.len() as u32
    }

    /// The place in the lookup table of the first identifier that is not below `id`.
    fn lookup_slot(&self, id: &CommitId) -> (slot: usize)
        requires
            self.wf(),
        ensures
            slot <= self.lookup@.len(),
            forall|i: int|
                0 <= i < slot ==> object_id::lex_lt(
                    self@[(#[trigger] self.lookup@[i]).0 as int].commit_id,
                    id@,
                ),
            forall|i: int|
                slot <= i < self.lookup@.len() ==> object_id::lex_le(
                    id@,
                    self@[(#[trigger] self.lookup@[i]).0 as int].commit_id,
                ),
    {
        let mut low: usize = 0;
        let mut high: usize = self.lookup.len();
        while low < high
            invariant
                self.wf(),
                low <= high <= self.lookup@.len(),
                forall|i: int|
                    0 <= i < low ==> object_id::lex_lt(
                        self@[(#[trigger] self.lookup@[i]).0 as int].commit_id,
                        id@,
                    ),
                forall|i: int|
                    high <= i < self.lookup@.len() ==> object_id::lex_le(
                        id@,
                        self@[(#[trigger] self.lookup@[i]).0 as int].commit_id,
                    ),
            decreases high - low,
        {
            let mid = low + (high - low) / 2;
            let p = self.lookup[mid];
            let ghost middle = self@[p.0 as int].commit_id;
            assert(middle == self.commits@[p.0 as int].commit_id@);
            if object_id::bytes_lt(self.commits[p.0 as usize].commit_id.as_bytes(), id.as_bytes()) {
                assert forall|i: int| 0 <= i < mid + 1 implies object_id::lex_lt(
                    self@[(#[trigger] self.lookup@[i]).0 as int].commit_id,
                    id@,
                ) by {
                    if i < mid {
                        object_id::lemma_between(
                            self@[self.lookup@[i].0 as int].commit_id,
                            middle,
                            id@,
                        );
                    }
                }
                low = mid + 1;
            } else {
                proof {
                    object_id::lemma_lex_total(middle, id@);
                }
                assert forall|i: int| mid <= i < self.lookup@.len() implies object_id::lex_le(
                    id@,
                    self@[(#[trigger] self.lookup@[i]).0 as int].commit_id,
                ) by {
                    if mid < i {
                        object_id::lemma_between(
                            id@,
                            middle,
                            self@[self.lookup@[i].0 as int].commit_id,
                        );
                    }
                }
                high = mid;
            }
        }
        low
    }

    /// The position of the commit with the identifier.
    pub fn commit_id_to_pos(&self, id: &CommitId) -> (pos: Option<IndexPosition>)
        requires
            self.wf(),
        ensures
            pos is Some <==> is_indexed(self@, id@),
            pos matches Some(p) ==> p.0 < self@.len() && self@[p.0 as int].commit_id == id@,
    {
        let slot = self.lookup_slot(id);
        if slot < self.lookup.len() {
            let p = self.lookup[slot];
            assert(self@[p.0 as int].commit_id == self.commits@[p.0 as int].commit_id@);
            if object_id::bytes_eq(self.commits[p.0 as usize].commit_id.as_bytes(), id.as_bytes()) {
                return Some(p);
            }
        }
        proof {
            if is_indexed(self@, id@) {
                let q = choose|q: int| 0 <= q < self@.len() && (#[trigger] self@[q]).commit_id == id@;
                assert(self.is_looked_up(q));
                let i = choose|i: int|
                    0 <= i < self.lookup@.len() && (#[trigger] self.lookup@[i]).0 == q;
                object_id::lemma_lex_total(id@, id@);
                assert(i > slot);
                let first = self@[self.lookup@[slot as int].0 as int].commit_id;
                object_id::lemma_lex_total(first, id@);
                assert(object_id::lex_lt(first, id@));
            }
        }
        None
    }

    /// The commit with the identifier.
    pub fn entry_by_id<'index>(&'index self, id: &CommitId) -> (entry: Option<IndexEntry<'index>>)
        requires
            self.wf(),
        ensures
            entry is Some <==> is_indexed(self@, id@),
            entry matches Some(found) ==> {
                &&& found == entry_at(self, position_of(self@, id@))
                &&& found.wf()
                &&& found.commit().commit_id == id@
            },
    {
        match self.commit_id_to_pos(id) {
            Some(pos) => {
                proof {
                    lemma_position_of(self@, id@, pos.0 as int);
                }
                Some(IndexEntry { index: self, pos })
            },
            None => None,
        }
    }

    /// The commit at the position.
    pub fn entry_by_pos<'index>(&'index self, pos: IndexPosition) -> (entry: IndexEntry<'index>)
        requires
            self.wf(),
            pos.0 < self@.len(),
        ensures
            entry == entry_at(self, pos.0),
            entry.wf(),
    {
        IndexEntry { index: self, pos }
    }

    /// Adds a commit after all others, unless there is one with its identifier.
    pub fn add_commit_data(
        &mut self,
        commit_id: CommitId,
        change_id: ChangeId,
        parent_ids: &[CommitId],
    )
        requires
            old(self).wf(),
            old(self)@.len() < u32::MAX,
            commit_id@.len() == old(self).spec_commit_id_length(),
            change_id@.len() == old(self).spec_change_id_length(),
            are_indexed(old(self)@, parent_ids@),
            parent_ids@.len() <= u32::MAX,
        ensures
            final(self).wf(),
            final(self).spec_commit_id_length() == old(self).spec_commit_id_length(),
            final(self).spec_change_id_length() == old(self).spec_change_id_length(),
            final(self)@ == if is_indexed(old(self)@, commit_id@) {
                old(self)@
            } else {
                old(self)@.push(
                    IndexedCommit {
                        commit_id: commit_id@,
                        change_id: change_id@,
                        parents: parent_ids@.map_values(
                            |id: CommitId| position_of(old(self)@, id@),
                        ),
                    },
                )
            },
    {
        if self.commit_id_to_pos(&commit_id).is_some() {
            return ;
        }
        let ghost graph = self@;
        let mut parents: Vec<IndexPosition> = Vec::with_capacity(parent_ids.len());
        for i in 0..parent_ids.len()
            invariant
                self.wf(),
                self@ == graph,
                are_indexed(graph, parent_ids@),
                parents@.len() == i,
                forall|j: int|
                    0 <= j < i ==> (#[trigger] parents@[j]).0 == position_of(graph, parent_ids@[j]@)
                        && parents@[j].0 < graph.len(),
        {
            assert(is_indexed(graph, parent_ids@[i as int]@));
            let pos = self.commit_id_to_pos(&parent_ids[i]).unwrap();
            proof {
                lemma_position_of(graph, parent_ids@[i as int]@, pos.0 as int);
            }
            parents.push(pos);
        }
        let slot = self.lookup_slot(&commit_id);
        let ghost old_lookup = self.lookup@;
        let pos = IndexPosition(self.commits.len() as u32);
        let ghost commit = IndexedCommit {
            commit_id: commit_id@,
            change_id: change_id@,
            parents: position_numbers(parents@),
        };
        self.lookup.insert(slot, pos);
        self.commits.push(CommitEntry { commit_id, change_id, parents });
        proof {
            assert(self@ =~= graph.push(commit));
            assert(commit.parents =~= parent_ids@.map_values(
                |id: CommitId| position_of(graph, id@),
            ));
            assert forall|i: int, j: int|
                0 <= i < j < self.lookup@.len() implies object_id::lex_lt(
                self@[(#[trigger] self.lookup@[i]).0 as int].commit_id,
                self@[(#[trigger] self.lookup@[j]).0 as int].commit_id,
            ) by {
                if i < slot {
                    assert(self.lookup@[i] == old_lookup[i]);
                }
                if j > slot {
                    assert(self.lookup@[j] == old_lookup[j - 1]);
                    if i == slot {
                        assert(is_indexed(graph, graph[old_lookup[j - 1].0 as int].commit_id));
                    } else if i > slot {
                        assert(self.lookup@[i] == old_lookup[i - 1]);
                    }
                } else if j < slot {
                    assert(self.lookup@[j] == old_lookup[j]);
                }
            }
            assert forall|i: int| 0 <= i < self.lookup@.len() implies (
            #[trigger] self.lookup@[i]).0 < self@.len() by {
                if i < slot {
                    assert(self.lookup@[i] == old_lookup[i]);
                } else if i > slot {
                    assert(self.lookup@[i] == old_lookup[i - 1]);
                }
            }
            assert forall|p: int| 0 <= p < self@.len() implies #[trigger] self.is_looked_up(
                p,
            ) by {
                if p == graph.len() {
                    assert(self.lookup@[slot as int].0 == p);
                } else {
                    assert(old(self).is_looked_up(p));
                    let i = choose|i: int|
                        0 <= i < old_lookup.len() && (#[trigger] old_lookup[i]).0 == p;
                    if i < slot {
                        assert(self.lookup@[i].0 == p);
                    } else {
                        assert(self.lookup@[i + 1].0 == p);
                    }
                }
            }
            assert forall|child: int, i: int|
                #![trigger self@[child].parents[i]]
                0 <= child < self@.len() && 0 <= i
                    < self@[child].parents.len() implies self@[child].parents[i] < child by {
                if child == graph.len() {
                    assert(parents@[i].0 < graph.len());
                } else {
                    assert(graph[child].parents[i] < child);
                }
            }
            assert forall|p: int, q: int|
                #![trigger self@[p].commit_id, self@[q].commit_id]
                0 <= p < self@.len() && 0 <= q < self@.len() && self@[p].commit_id
                    == self@[q].commit_id implies p == q by {
                if p < graph.len() {
                    assert(graph[p].commit_id == self@[p].commit_id);
                    assert(is_indexed(graph, graph[p].commit_id));
                }
                if q < graph.len() {
                    assert(graph[q].commit_id == self@[q].commit_id);
                    assert(is_indexed(graph, graph[q].commit_id));
                }
            }
            assert(graph::is_graph(self@));
            assert(self.lookup_is_sorted());
            assert forall|p: int| 0 <= p < self@.len() implies {
                &&& (#[trigger] self@[p]).commit_id.len() == self.spec_commit_id_length()
                &&& self@[p].change_id.len() == self.spec_change_id_length()
                &&& self@[p].parents.len() <= u32::MAX
            } by {
                if p < graph.len() {
                    assert(graph[p] == self@[p]);
                }
            }
        }
    }
}

/// A commit of an index.
#[derive(Debug, Clone, Copy)]
pub struct IndexEntry<'index> {
    pub index: &'index CompositeIndex,
    pub pos: IndexPosition,
}

impl<'index> PartialEq for IndexEntry<'index> {
    fn eq(&self, other: &Self) -> (same: bool) {
        self.pos.0 == other.pos.0
    }
}

impl<'index> vstd::std_specs::cmp::PartialEqSpecImpl for IndexEntry<'index> {
    open spec fn obeys_eq_spec() -> bool {
        true
    }

    /// Entries of an index are the same where they stand at the same position.
    open spec fn eq_spec(&self, other: &Self) -> bool {
        self.pos.0 == other.pos.0
    }
}

/// The commit of the index at position `p`.
pub open spec fn entry_at<'index>(index: &'index CompositeIndex, p: u32) -> IndexEntry<'index> {
    IndexEntry { index, pos: IndexPosition(p) }
}

/// The commits of the index at the positions, by position.
pub open spec fn entries_of<'index>(
    index: &'index CompositeIndex,
    positions: Set<u32>,
) -> Map<u32, IndexEntry<'index>> {
    Map::new(|p: u32| positions.contains(p), |p: u32| entry_at(index, p))
}

/// What a step of an iterator over entries does: while there are entries to come, it yields the
/// one at the highest position, which then is not to come any more.
pub open spec fn yields_next<'index>(
    before: Map<u32, IndexEntry<'index>>,
    result: Option<IndexEntry<'index>>,
    after: Map<u32, IndexEntry<'index>>,
) -> bool {
    match result {
        None => before.dom().is_empty() && after == before,
        Some(entry) => {
            &&& before.contains_pair(entry.pos.0, entry)
            &&& forall|p: u32| #[trigger] before.dom().contains(p) ==> p <= entry.pos.0
            &&& after == before.remove(entry.pos.0)
        },
    }
}

/// Entries stand under their own positions, and are entries of their indexes.
pub open spec fn are_entries<'index>(entries: Map<u32, IndexEntry<'index>>) -> bool {
    forall|p: u32| #[trigger]
        entries.dom().contains(p) ==> entries[p].pos.0 == p && entries[p].wf()
}

impl<'index> IndexEntry<'index> {
    /// The entry is one of its index.
    pub open spec fn wf(&self) -> bool {
        &&& self.index.wf()
        &&& self.pos.0 < self.index@.len()
    }

    /// What the index records of the commit.
    pub open spec fn commit(&self) -> IndexedCommit {
        self.index@[self.pos.0 as int]
    }

    /// The position in the index.
    pub fn position(&self) -> (pos: IndexPosition)
        ensures
            pos == self.pos,
    {
        self.pos
    }

    /// The identifier of the commit.
    pub fn commit_id(&self) -> (id: CommitId)
        requires
            self.wf(),
        ensures
            id@ == self.commit().commit_id,
    {
        self.index.commits[self.pos.0 as usize].commit_id.clone()
    }

    /// The identifier of the change that the commit is a version of.
    pub fn change_id(&self) -> (id: ChangeId)
        requires
            self.wf(),
        ensures
            id@ == self.commit().change_id,
    {
        self.index.commits[self.pos.0 as usize].change_id.clone()
    }

    /// The number of parents.
    pub fn num_parents(&self) -> (num: u32)
        requires
            self.wf(),
        ensures
            num == self.commit().parents.len(),
    {
        self.index.commits[self.pos.0 as usize].parents.len() as u32
    }

    /// The positions of the parents.
    pub fn parent_positions(&self) -> (positions: &'index Vec<IndexPosition>)
        requires
            self.wf(),
        ensures
            position_numbers(positions@) == self.commit().parents,
    {
        &self.index.commits[self.pos.0 as usize].parents
    }
}

} // verus!
