//! The commits of a set, by the identifier of their change.

use crate::graph::IndexedCommit;
use crate::hex_prefix;
use crate::hex_prefix::{HexPrefix, PrefixResolution};
use crate::id_index;
use crate::id_index::IdIndex;
use crate::index;
use crate::index::{CompositeIndex, IndexEntry, IndexPosition};
use crate::iter;
use crate::object_id;
use crate::object_id::{ChangeId, CommitId, ObjectId};
use vstd::prelude::*;

verus! {

/// The positions of the set at which the identifier of the change starts with the digits.
pub open spec fn changes_with_prefix(
    graph: Seq<IndexedCommit>,
    positions: Set<u32>,
    digits: Seq<u8>,
) -> Set<u32> {
    positions.filter(
        |p: u32| hex_prefix::starts_with_digits(digits, graph[p as int].change_id),
    )
}

/// The commits at the positions are versions of the same change.
pub open spec fn are_of_one_change(graph: Seq<IndexedCommit>, positions: Set<u32>) -> bool {
    forall|p: u32, q: u32| #[trigger]
        positions.contains(p) && #[trigger] positions.contains(q) ==> graph[p as int].change_id
            == graph[q as int].change_id
}

/// The first `len` digits of the identifier tell it from that of every other change of the set.
/// Where another starts with all of it, that takes one more than its digits.
pub open spec fn disambiguates_change(
    graph: Seq<IndexedCommit>,
    positions: Set<u32>,
    change_id: Seq<u8>,
    len: nat,
) -> bool {
    forall|p: u32| #[trigger]
        positions.contains(p) && graph[p as int].change_id != change_id
            ==> object_id::common_prefix_len(
            object_id::hex_digits(change_id),
            object_id::hex_digits(graph[p as int].change_id),
        ) < len
}

/// Each position of the set stands in just one of the entries, with the identifier of its change.
spec fn lists_changes(
    graph: Seq<IndexedCommit>,
    entries: Seq<(ChangeId, IndexPosition)>,
    positions: Set<u32>,
) -> bool {
    &&& forall|i: int|
        0 <= i < entries.len() ==> {
            &&& positions.contains((#[trigger] entries[i]).1.0)
            &&& entries[i].1.0 < graph.len()
            &&& entries[i].0@ == graph[entries[i].1.0 as int].change_id
        }
    &&& forall|i: int, j: int|
        0 <= i < j < entries.len() ==> (#[trigger] entries[i]).1.0 != (#[trigger] entries[j]).1.0
    &&& forall|p: u32| #[trigger] positions.contains(p) ==> is_listed(entries, p)
}

spec fn is_listed(entries: Seq<(ChangeId, IndexPosition)>, p: u32) -> bool {
    exists|i: int| 0 <= i < entries.len() && (#[trigger] entries[i]).1.0 == p
}

/// The commits of a set, by the identifier of their change.
#[derive(Debug)]
pub struct ChangeIdIndexImpl<'index> {
    index: &'index CompositeIndex,
    pos_by_change: IdIndex<ChangeId, IndexPosition>,
}

impl<'index> View for ChangeIdIndexImpl<'index> {
    type V = Set<u32>;

    /// The positions of the commits.
    closed spec fn view(&self) -> Set<u32> {
        Set::new(|p: u32| is_listed(self.pos_by_change@, p))
    }
}

impl<'index> ChangeIdIndexImpl<'index> {
    #[verifier::type_invariant]
    spec fn inv(self) -> bool {
        &&& self.index.wf()
        &&& lists_changes(self.index@, self.pos_by_change@, self@)
    }

    /// What the index of commits holds.
    pub closed spec fn graph(&self) -> Seq<IndexedCommit> {
        self.index@
    }

    /// The index of the given commits.
    pub fn new(index: &'index CompositeIndex, entries: &Vec<IndexEntry<'index>>) -> (changes: Self)
        requires
            index.wf(),
            iter::is_descending(entries@),
            forall|i: int| 0 <= i < entries@.len() ==> (#[trigger] entries@[i]).index == index,
        ensures
            changes.graph() == index@,
            changes@ == iter::entry_map(entries@).dom(),
    {
        let mut pos_by_change: Vec<(ChangeId, IndexPosition)> = Vec::with_capacity(entries.len());
        for i in 0..entries.len()
            invariant
                iter::is_descending(entries@),
                forall|j: int| 0 <= j < entries@.len() ==> (#[trigger] entries@[j]).index == index,
                pos_by_change@.len() == i,
                forall|j: int|
                    0 <= j < i ==> (#[trigger] pos_by_change@[j]).1 == entries@[j].pos
                        && pos_by_change@[j].0@ == index@[entries@[j].pos.0 as int].change_id,
        {
            pos_by_change.push((entries[i].change_id(), entries[i].position()));
        }
        let ghost given = pos_by_change@;
        let ghost positions = iter::entry_map(entries@).dom();
        let pos_by_change = IdIndex::from_vec(pos_by_change);
        proof {
            lemma_lists_changes(index@, entries@, given, pos_by_change@);
            assert(Set::new(|p: u32| is_listed(pos_by_change@, p)) =~= positions);
        }
        ChangeIdIndexImpl { index, pos_by_change }
    }

    /// The commits whose change has an identifier with the prefix, where that is one change.
    pub fn resolve_prefix(&self, prefix: &HexPrefix) -> (resolution: PrefixResolution<
        Vec<CommitId>,
    >)
        ensures
            ({
                let matched = changes_with_prefix(self.graph(), self@, prefix@);
                &&& resolution is NoMatch <==> matched.is_empty()
                &&& resolution is AmbiguousMatch <==> !are_of_one_change(self.graph(), matched)
                &&& resolution matches PrefixResolution::SingleMatch(commit_ids) ==> {
                    &&& index::are_indexed(self.graph(), commit_ids@)
                    &&& index::positions_of(self.graph(), commit_ids@) == matched
                    &&& commit_ids@.len() == matched.len()
                }
            }),
    {
        proof {
            use_type_invariant(self);
        }
        let index = self.index;
        let commit_id_at = |pos: &IndexPosition| -> (id: CommitId)
            requires
                index.wf(),
                pos.0 < index@.len(),
            ensures
                id@ == index@[pos.0 as int].commit_id,
            { index.entry_by_pos(*pos).commit_id() };
        proof {
            lemma_listed_with_prefix(self.index@, self.pos_by_change@, self@, prefix@);
        }
        let resolution = self.pos_by_change.resolve_prefix_with(prefix, commit_id_at);
        proof {
            let graph = self.index@;
            let entries = self.pos_by_change@;
            let listed = id_index::entries_with_prefix(entries, prefix@);
            let matched = changes_with_prefix(graph, self@, prefix@);
            if let PrefixResolution::SingleMatch(commit_ids) = &resolution {
                let numbers = listed.map_values(|entry: (ChangeId, IndexPosition)| entry.1.0);
                assert forall|i: int| 0 <= i < numbers.len() implies #[trigger] numbers[i]
                    < graph.len() && commit_ids@[i]@ == graph[numbers[i] as int].commit_id by {
                    assert(call_ensures(commit_id_at, (&listed[i].1,), commit_ids@[i]));
                    assert(matched.contains(listed[i].1.0));
                }
                index::lemma_ids_of_positions(graph, commit_ids@, numbers);
                assert(numbers.no_duplicates());
                numbers.unique_seq_to_set();
                assert forall|p: u32| #[trigger] matched.contains(p) <==> numbers.contains(p) by {
                    if matched.contains(p) {
                        let i = choose|i: int|
                            0 <= i < listed.len() && (#[trigger] listed[i]).1.0 == p;
                        assert(numbers[i] == p);
                    }
                    if numbers.contains(p) {
                        let i = choose|i: int| 0 <= i < numbers.len() && numbers[i] == p;
                        assert(listed[i].1.0 == p);
                    }
                }
                assert(numbers.to_set() =~= matched);
                assert(index::positions_of(graph, commit_ids@) =~= matched);
            }
        }
        resolution
    }

    /// The shortest length of a prefix of the identifier, in digits, that tells it from that of
    /// every other change.
    pub fn shortest_unique_prefix_len(&self, change_id: &ChangeId) -> (len: usize)
        requires
            2 * change_id@.len() < usize::MAX,
        ensures
            disambiguates_change(self.graph(), self@, change_id@, len as nat),
            forall|shorter: nat|
                shorter < len ==> !disambiguates_change(self.graph(), self@, change_id@, shorter),
    {
        proof {
            use_type_invariant(self);
        }
        let len = self.pos_by_change.shortest_unique_prefix_len(change_id);
        proof {
            let entries = self.pos_by_change@;
            assert forall|some: nat|
                id_index::disambiguates(entries, change_id.bytes(), some)
                    == #[trigger] disambiguates_change(self.index@, self@, change_id@, some) by {
                lemma_disambiguates(self.index@, entries, self@, change_id@, some);
            }
        }
        len
    }
}

/// Whether entries come in the order of the positions or in that of the identifiers, they list the
/// same changes.
proof fn lemma_lists_changes<'index>(
    graph: Seq<IndexedCommit>,
    entries: Seq<IndexEntry<'index>>,
    given: Seq<(ChangeId, IndexPosition)>,
    sorted: Seq<(ChangeId, IndexPosition)>,
)
    requires
        iter::is_descending(entries),
        forall|i: int| 0 <= i < entries.len() ==> (#[trigger] entries[i]).index@ == graph,
        given.len() == entries.len(),
        forall|i: int|
            0 <= i < given.len() ==> (#[trigger] given[i]).1 == entries[i].pos && given[i].0@
                == graph[entries[i].pos.0 as int].change_id,
        sorted.to_multiset() == given.to_multiset(),
    ensures
        lists_changes(graph, sorted, iter::entry_map(entries).dom()),
        forall|p: u32|
            is_listed(sorted, p) <==> #[trigger] iter::entry_map(entries).dom().contains(p),
{
    let positions = iter::entry_map(entries).dom();
    assert forall|i: int, j: int| 0 <= i < given.len() && 0 <= j < given.len() && i
        != j implies given[i].1.0 != given[j].1.0 by {
        if i < j {
            assert(entries[j].pos.0 < entries[i].pos.0);
        } else {
            assert(entries[i].pos.0 < entries[j].pos.0);
        }
    }
    assert(given.no_duplicates());
    given.lemma_multiset_has_no_duplicates();
    sorted.lemma_multiset_has_no_duplicates_conv();
    assert forall|entry: (ChangeId, IndexPosition)|
        #![trigger sorted.contains(entry)]
        #![trigger given.contains(entry)]
        sorted.contains(entry) <==> given.contains(entry) by {
        vstd::seq_lib::to_multiset_contains(sorted, entry);
        vstd::seq_lib::to_multiset_contains(given, entry);
    }
    assert forall|i: int| 0 <= i < sorted.len() implies {
        &&& positions.contains((#[trigger] sorted[i]).1.0)
        &&& sorted[i].1.0 < graph.len()
        &&& sorted[i].0@ == graph[sorted[i].1.0 as int].change_id
    } by {
        assert(given.contains(sorted[i]));
        let k = choose|k: int| 0 <= k < given.len() && given[k] == sorted[i];
        assert(entries[k].pos == sorted[i].1);
    }
    assert forall|i: int, j: int| 0 <= i < j < sorted.len() implies (#[trigger] sorted[i]).1.0 != (
    #[trigger] sorted[j]).1.0 by {
        assert(given.contains(sorted[i]));
        assert(given.contains(sorted[j]));
        let k = choose|k: int| 0 <= k < given.len() && given[k] == sorted[i];
        let l = choose|l: int| 0 <= l < given.len() && given[l] == sorted[j];
        assert(sorted[i] != sorted[j]);
    }
    assert forall|p: u32| #[trigger] positions.contains(p) implies is_listed(sorted, p) by {
        let i = choose|i: int| 0 <= i < entries.len() && (#[trigger] entries[i]).pos.0 == p;
        assert(given[i].1.0 == p);
        assert(sorted.contains(given[i]));
        let k = choose|k: int| 0 <= k < sorted.len() && sorted[k] == given[i];
        assert(sorted[k].1.0 == p);
    }
}

/// The entries with the prefix are at the positions whose change has it, each of which is listed
/// once.
proof fn lemma_listed_with_prefix(
    graph: Seq<IndexedCommit>,
    entries: Seq<(ChangeId, IndexPosition)>,
    positions: Set<u32>,
    digits: Seq<u8>,
)
    requires
        lists_changes(graph, entries, positions),
    ensures
        ({
            let listed = id_index::entries_with_prefix(entries, digits);
            let matched = changes_with_prefix(graph, positions, digits);
            &&& lists_changes(graph, listed, matched)
            &&& listed.len() == 0 <==> matched.is_empty()
            &&& id_index::have_one_key(listed) <==> are_of_one_change(graph, matched)
        }),
{
    let pred = |entry: (ChangeId, IndexPosition)|
        hex_prefix::starts_with_digits(digits, entry.0.bytes());
    let listed = id_index::entries_with_prefix(entries, digits);
    let matched = changes_with_prefix(graph, positions, digits);
    assert(listed == entries.filter(pred));
    lemma_filter_keeps_distinct(entries, pred);
    assert forall|i: int| 0 <= i < listed.len() implies {
        &&& matched.contains((#[trigger] listed[i]).1.0)
        &&& listed[i].1.0 < graph.len()
        &&& listed[i].0@ == graph[listed[i].1.0 as int].change_id
    } by {
        entries.lemma_filter_pred(pred, i);
        entries.lemma_filter_contains_rev(pred, listed[i]);
        let j = choose|j: int| 0 <= j < entries.len() && entries[j] == listed[i];
        assert(positions.contains(entries[j].1.0));
    }
    assert forall|p: u32| #[trigger] matched.contains(p) implies is_listed(listed, p) by {
        assert(positions.contains(p));
        let j = choose|j: int| 0 <= j < entries.len() && (#[trigger] entries[j]).1.0 == p;
        entries.lemma_filter_contains(pred, j);
        let i = choose|i: int| 0 <= i < listed.len() && listed[i] == entries[j];
        assert(listed[i].1.0 == p);
    }
    if listed.len() == 0 {
        assert(matched =~= Set::empty());
    } else {
        assert(matched.contains(listed[0].1.0));
    }
    if id_index::have_one_key(listed) {
        assert forall|p: u32, q: u32| #[trigger]
            matched.contains(p) && #[trigger] matched.contains(q) implies graph[p as int].change_id
            == graph[q as int].change_id by {
            let i = choose|i: int| 0 <= i < listed.len() && (#[trigger] listed[i]).1.0 == p;
            let j = choose|j: int| 0 <= j < listed.len() && (#[trigger] listed[j]).1.0 == q;
            assert(listed[i].0.bytes() == listed[j].0.bytes());
        }
    }
    if are_of_one_change(graph, matched) {
        assert forall|i: int, j: int| 0 <= i < listed.len() && 0 <= j < listed.len() implies (
        #[trigger] listed[i]).0.bytes() == (#[trigger] listed[j]).0.bytes() by {
            assert(matched.contains(listed[i].1.0) && matched.contains(listed[j].1.0));
        }
    }
}

proof fn lemma_filter_keeps_distinct(
    entries: Seq<(ChangeId, IndexPosition)>,
    pred: spec_fn((ChangeId, IndexPosition)) -> bool,
)
    requires
        forall|i: int, j: int|
            0 <= i < j < entries.len() ==> (#[trigger] entries[i]).1.0 != (
            #[trigger] entries[j]).1.0,
    ensures
        forall|i: int, j: int|
            0 <= i < j < entries.filter(pred).len() ==> (#[trigger] entries.filter(pred)[i]).1.0 != (
            #[trigger] entries.filter(pred)[j]).1.0,
    decreases entries.len(),
{
    reveal(Seq::filter);
    if entries.len() > 0 {
        let rest = entries.drop_last();
        let kept = rest.filter(pred);
        lemma_filter_keeps_distinct(rest, pred);
        assert forall|i: int| 0 <= i < kept.len() implies (#[trigger] kept[i]).1.0
            != entries.last().1.0 by {
            rest.lemma_filter_contains_rev(pred, kept[i]);
            let j = choose|j: int| 0 <= j < rest.len() && rest[j] == kept[i];
            assert(entries[j].1.0 != entries[entries.len() - 1].1.0);
        }
    }
}

/// What tells an identifier from the keys of the entries tells it from the other changes.
proof fn lemma_disambiguates(
    graph: Seq<IndexedCommit>,
    entries: Seq<(ChangeId, IndexPosition)>,
    positions: Set<u32>,
    change_id: Seq<u8>,
    len: nat,
)
    requires
        lists_changes(graph, entries, positions),
    ensures
        id_index::disambiguates(entries, change_id, len) == disambiguates_change(
            graph,
            positions,
            change_id,
            len,
        ),
{
    if id_index::disambiguates(entries, change_id, len) {
        assert forall|p: u32| #[trigger]
            positions.contains(p) && graph[p as int].change_id
                != change_id implies object_id::common_prefix_len(
            object_id::hex_digits(change_id),
            object_id::hex_digits(graph[p as int].change_id),
        ) < len by {
            let i = choose|i: int| 0 <= i < entries.len() && (#[trigger] entries[i]).1.0 == p;
            assert(entries[i].0.bytes() == graph[p as int].change_id);
        }
    }
    if disambiguates_change(graph, positions, change_id, len) {
        assert forall|i: int|
            #![trigger entries[i]]
            0 <= i < entries.len() && entries[i].0.bytes()
                != change_id implies object_id::common_prefix_len(
            object_id::hex_digits(change_id),
            object_id::hex_digits(entries[i].0.bytes()),
        ) < len by {
            assert(positions.contains(entries[i].1.0));
        }
    }
}

/// A prefix of the identifier of a change that disambiguates it stands for no other change, and for
/// it if the set has a version of it.
pub proof fn law_unique_change_prefix(
    graph: Seq<IndexedCommit>,
    positions: Set<u32>,
    change_id: Seq<u8>,
    len: nat,
)
    requires
        disambiguates_change(graph, positions, change_id, len),
        len <= object_id::hex_digits(change_id).len(),
    ensures
        changes_with_prefix(graph, positions, object_id::hex_digits(change_id).take(len as int))
            == positions.filter(|p: u32| graph[p as int].change_id == change_id),
{
    let digits = object_id::hex_digits(change_id);
    let matched = changes_with_prefix(graph, positions, digits.take(len as int));
    let own = positions.filter(|p: u32| graph[p as int].change_id == change_id);
    assert forall|p: u32| matched.contains(p) == own.contains(p) by {
        id_index::lemma_shares_digits(change_id, graph[p as int].change_id, len);
        object_id::lemma_common_prefix_unique(digits, digits, digits.len());
    }
    assert(matched =~= own);
}

/// A prefix of the identifier of a change that does not disambiguate it stands for another change
/// too.
pub proof fn law_shared_change_prefix(
    graph: Seq<IndexedCommit>,
    positions: Set<u32>,
    change_id: Seq<u8>,
    len: nat,
)
    requires
        !disambiguates_change(graph, positions, change_id, len),
        len <= object_id::hex_digits(change_id).len(),
        exists|p: u32| #[trigger] positions.contains(p) && graph[p as int].change_id == change_id,
    ensures
        !are_of_one_change(
            graph,
            changes_with_prefix(graph, positions, object_id::hex_digits(change_id).take(len as int)),
        ),
{
    let digits = object_id::hex_digits(change_id);
    let matched = changes_with_prefix(graph, positions, digits.take(len as int));
    let own = choose|p: u32| #[trigger]
        positions.contains(p) && graph[p as int].change_id == change_id;
    let other = choose|p: u32| #[trigger]
        positions.contains(p) && graph[p as int].change_id != change_id
            && object_id::common_prefix_len(
            digits,
            object_id::hex_digits(graph[p as int].change_id),
        ) >= len;
    object_id::lemma_common_prefix_unique(digits, digits, digits.len());
    id_index::lemma_shares_digits(change_id, change_id, len);
    id_index::lemma_shares_digits(change_id, graph[other as int].change_id, len);
    assert(matched.contains(own) && matched.contains(other));
}

} // verus!
