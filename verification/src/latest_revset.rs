//! The latest commits of a set.

use crate::eager;
use crate::engine;
use crate::engine::{EvaluatedRevset, EvaluationContext};
use crate::index;
use crate::index::CompositeIndex;
use crate::iter;
use crate::latest;
use crate::latest::{Item, LatestItems};
use crate::revset;
use crate::revset::{EagerRevset, InternalRevset};
use crate::semantics;
use crate::store::{MillisSinceEpoch, Store};
use vstd::prelude::*;

verus! {

/// The commit of the index at `p`, with its time.
pub open spec fn item_at<'index>(
    store: &Store,
    index: &'index CompositeIndex,
    p: u32,
) -> Item<'index> {
    Item {
        timestamp: MillisSinceEpoch(semantics::commit_time(store, index@, p)),
        entry: index::entry_at(index, p),
    }
}

/// The items are the latest of the commits at the positions, up to `count` of them.
spec fn are_latest_of<'index>(
    store: &Store,
    index: &'index CompositeIndex,
    items: Seq<Item<'index>>,
    positions: Set<u32>,
    count: nat,
) -> bool {
    &&& latest::is_ascending(items)
    &&& items.len() <= count
    &&& forall|i: int|
        0 <= i < items.len() ==> (#[trigger] items[i]) == item_at(store, index, items[i].entry.pos.0)
            && positions.contains(items[i].entry.pos.0)
    &&& items.len() < count ==> forall|p: u32| #[trigger]
        positions.contains(p) ==> items.contains(item_at(store, index, p))
    &&& forall|p: u32, i: int|
        #![trigger positions.contains(p), items[i]]
        positions.contains(p) && !items.contains(item_at(store, index, p)) && 0 <= i < items.len()
            ==> latest::is_earlier(item_at(store, index, p), items[i])
}

/// One more position: the items stay the latest if the new one is added and the earliest dropped.
proof fn lemma_add_latest<'index>(
    store: &Store,
    index: &'index CompositeIndex,
    before: Seq<Item<'index>>,
    after: Seq<Item<'index>>,
    positions: Set<u32>,
    p: u32,
    count: nat,
)
    requires
        count > 0,
        are_latest_of(store, index, before, positions, count),
        !positions.contains(p),
        latest::is_ascending(after),
        after.len() <= count,
        ({
            let item = item_at(store, index, p);
            if before.len() < count {
                after.to_set() == before.to_set().insert(item) && after.len() == before.len() + 1
            } else if latest::is_earlier(before[0], item) {
                after.to_set() == before.to_set().remove(before[0]).insert(item) && after.len()
                    == before.len()
            } else {
                after == before
            }
        }),
    ensures
        are_latest_of(store, index, after, positions.insert(p), count),
{
    let item = item_at(store, index, p);
    let all = positions.insert(p);
    let replaced = before.len() >= count && latest::is_earlier(before[0], item);
    let skipped = before.len() >= count && !replaced;
    assert forall|x: Item<'index>| #[trigger] after.contains(x) <==> if skipped {
        before.contains(x)
    } else {
        x == item || (before.contains(x) && !(replaced && x == before[0]))
    } by {
        assert(after.to_set().contains(x) <==> after.contains(x));
        assert(before.to_set().contains(x) <==> before.contains(x));
    }
    assert forall|i: int| 0 <= i < after.len() implies (#[trigger] after[i]) == item_at(
        store,
        index,
        after[i].entry.pos.0,
    ) && all.contains(after[i].entry.pos.0) by {
        assert(after.contains(after[i]));
        if after[i] != item || skipped {
            let j = choose|j: int| 0 <= j < before.len() && before[j] == after[i];
            assert(before[j] == after[i]);
        }
    }
    if after.len() < count {
        assert forall|q: u32| #[trigger] all.contains(q) implies after.contains(
            item_at(store, index, q),
        ) by {
            if q != p {
                assert(positions.contains(q));
            }
        }
    }
    assert forall|q: u32, i: int|
        #![trigger all.contains(q), after[i]]
        all.contains(q) && !after.contains(item_at(store, index, q)) && 0 <= i
            < after.len() implies latest::is_earlier(item_at(store, index, q), after[i]) by {
        assert(after.contains(after[i]));
        let other = item_at(store, index, q);
        if q == p {
            assert(skipped);
            assert(before[0].entry.pos.0 != p);
            assert(latest::is_earlier(item, before[0]));
            if i > 0 {
                assert(latest::is_earlier(before[0], before[i]));
            }
        } else {
            assert(positions.contains(q));
            if before.contains(other) {
                assert(replaced && other == before[0]);
                if after[i] != item {
                    let j = choose|j: int| 0 <= j < before.len() && before[j] == after[i];
                    assert(latest::is_earlier(before[0], before[j]));
                }
            } else if after[i] == item && !skipped {
                assert(replaced);
                assert(latest::is_earlier(other, before[0]));
            } else {
                let j = choose|j: int| 0 <= j < before.len() && before[j] == after[i];
                assert(latest::is_earlier(other, before[j]));
            }
        }
    }
}

/// The latest items stand at the positions that fewer than `count` others are later than.
proof fn lemma_latest_positions<'index>(
    store: &Store,
    index: &'index CompositeIndex,
    items: Seq<Item<'index>>,
    positions: Set<u32>,
    count: nat,
)
    requires
        are_latest_of(store, index, items, positions, count),
    ensures
        eager::listed_positions(items.map_values(|item: Item<'index>| item.entry))
            == semantics::latest(store, index@, positions, count),
{
    let graph = index@;
    let entries = items.map_values(|item: Item<'index>| item.entry);
    let kept = eager::listed_positions(entries);
    let numbers = items.map_values(|item: Item<'index>| item.entry.pos.0);
    assert forall|i: int, j: int| 0 <= i < numbers.len() && 0 <= j < numbers.len() && i != j implies
        numbers[i] != numbers[j] by {
        let (low, high) = if i < j {
            (i, j)
        } else {
            (j, i)
        };
        assert(latest::is_earlier(items[low], items[high]));
        assert(items[low] == item_at(store, index, numbers[low]));
        assert(items[high] == item_at(store, index, numbers[high]));
    }
    numbers.unique_seq_to_set();
    assert forall|p: u32| #[trigger] kept.contains(p) <==> items.contains(
        item_at(store, index, p),
    ) by {
        if kept.contains(p) {
            let i = choose|i: int| 0 <= i < entries.len() && (#[trigger] entries[i]).pos.0 == p;
            assert(items[i] == item_at(store, index, items[i].entry.pos.0));
        }
        if items.contains(item_at(store, index, p)) {
            let i = choose|i: int| 0 <= i < items.len() && items[i] == item_at(store, index, p);
            assert(entries[i].pos.0 == p);
        }
    }
    assert(kept =~= numbers.to_set()) by {
        assert forall|p: u32| #[trigger] kept.contains(p) <==> numbers.contains(p) by {
            if kept.contains(p) {
                let i = choose|i: int| 0 <= i < entries.len() && (#[trigger] entries[i]).pos.0 == p;
                assert(numbers[i] == p);
            }
            if numbers.contains(p) {
                let i = choose|i: int| 0 <= i < numbers.len() && numbers[i] == p;
                assert(entries[i].pos.0 == p);
            }
        }
    }
    assert forall|p: u32| #[trigger] kept.contains(p) <==> semantics::latest(
        store,
        graph,
        positions,
        count,
    ).contains(p) by {
        let later = semantics::later_than(store, graph, positions, p);
        iter::lemma_positions_finite(later);
        iter::lemma_positions_finite(kept);
        if kept.contains(p) {
            let k = choose|k: int| 0 <= k < items.len() && items[k] == item_at(store, index, p);
            assert(positions.contains(items[k].entry.pos.0));
            assert forall|q: u32| #[trigger] later.contains(q) implies kept.remove(p).contains(q) by {
                if !items.contains(item_at(store, index, q)) {
                    assert(positions.contains(q));
                    assert(latest::is_earlier(item_at(store, index, q), items[k]));
                }
            }
            vstd::set_lib::lemma_len_subset(later, kept.remove(p));
        } else if positions.contains(p) {
            assert(items.len() == count);
            assert forall|q: u32| #[trigger] kept.contains(q) implies later.contains(q) by {
                let k = choose|k: int|
                    0 <= k < items.len() && items[k] == item_at(store, index, q);
                assert(latest::is_earlier(item_at(store, index, p), items[k]));
                assert(positions.contains(items[k].entry.pos.0));
            }
            vstd::set_lib::lemma_len_subset(kept, later);
        }
    }
    assert(kept =~= semantics::latest(store, graph, positions, count));
}

impl<'index, 'heads> EvaluationContext<'index, 'heads> {
    /// The commits of the set with the latest times, `count` of them if there are so many.
    pub fn take_latest_revset(
        &self,
        candidate_set: &EvaluatedRevset<'index>,
        count: usize,
    ) -> (set: EvaluatedRevset<'index>)
        requires
            self.composite_index.wf(),
            candidate_set.wf(),
            candidate_set.is_over(self.composite_index),
            count > 0 ==> candidate_set.is_iterable() && semantics::are_stored(
                self.store,
                self.composite_index@,
                candidate_set.entries().dom(),
            ),
        ensures
            set is Eager,
            engine::is_set_of(
                set,
                self.composite_index,
                semantics::latest(
                    self.store,
                    self.composite_index@,
                    candidate_set.entries().dom(),
                    count as nat,
                ),
            ),
    {
        let ghost positions = candidate_set.entries().dom();
        let ghost graph = self.composite_index@;
        if count == 0 {
            let set: EvaluatedRevset<'index> = InternalRevset::Eager(EagerRevset::empty());
            assert(semantics::latest(self.store, graph, positions, 0) =~= set.entries().dom());
            return set;
        }
        let candidates = candidate_set.iter().collect_vec();
        proof {
            revset::lemma_entries_over_index(*candidate_set, self.composite_index);
            assert forall|i: int| 0 <= i < candidates@.len() implies (#[trigger] candidates@[i])
                == index::entry_at(self.composite_index, candidates@[i].pos.0) && positions.contains(
                candidates@[i].pos.0,
            ) by {
                iter::lemma_entry_map(candidates@, i);
            }
        }
        let mut latest_items = LatestItems::new(count);
        proof {
            latest_items.lemma_wf();
            assert(eager::listed_positions(candidates@.take(0)) =~= Set::<u32>::empty());
        }
        for i in 0..candidates.len()
            invariant
                count > 0,
                graph == self.composite_index@,
                latest_items.wf(),
                latest_items.limit() == count,
                iter::is_descending(candidates@),
                forall|j: int|
                    0 <= j < candidates@.len() ==> (#[trigger] candidates@[j]) == index::entry_at(
                        self.composite_index,
                        candidates@[j].pos.0,
                    ) && positions.contains(candidates@[j].pos.0),
                forall|p: u32| #[trigger]
                    positions.contains(p) ==> self.store.has_commit(graph[p as int].commit_id),
                are_latest_of(
                    self.store,
                    self.composite_index,
                    latest_items@,
                    eager::listed_positions(candidates@.take(i as int)),
                    count as nat,
                ),
        {
            let entry = candidates[i];
            let ghost p = entry.pos.0;
            let ghost seen = eager::listed_positions(candidates@.take(i as int));
            assert(positions.contains(p));
            let commit = self.store.get_commit(&entry.commit_id()).unwrap();
            let item = Item { timestamp: commit.committer.timestamp.timestamp, entry };
            let ghost before = latest_items@;
            proof {
                assert(!seen.contains(p)) by {
                    if seen.contains(p) {
                        let j = choose|j: int|
                            0 <= j < i && (#[trigger] candidates@.take(i as int)[j]).pos.0 == p;
                        assert(candidates@[j].pos.0 > candidates@[i as int].pos.0);
                    }
                }
                assert(item == item_at(self.store, self.composite_index, p));
                assert forall|j: int| 0 <= j < before.len() implies (
                #[trigger] before[j]).entry.pos.0 != p by {
                    assert(seen.contains(before[j].entry.pos.0));
                }
            }
            latest_items.add(item);
            proof {
                latest_items.lemma_wf();
                lemma_add_latest(
                    self.store,
                    self.composite_index,
                    before,
                    latest_items@,
                    seen,
                    p,
                    count as nat,
                );
                let next = candidates@.take(i + 1);
                assert(next =~= candidates@.take(i as int).push(entry));
                assert forall|q: u32| #[trigger]
                    eager::listed_positions(next).contains(q) <==> seen.insert(p).contains(q) by {
                    if seen.contains(q) {
                        let j = choose|j: int|
                            0 <= j < i && (#[trigger] candidates@.take(i as int)[j]).pos.0 == q;
                        assert(next[j].pos.0 == q);
                    }
                    assert(next[i as int].pos.0 == p);
                    if eager::listed_positions(next).contains(q) && q != p {
                        let j = choose|j: int|
                            0 <= j < next.len() && (#[trigger] next[j]).pos.0 == q;
                        assert(candidates@.take(i as int)[j].pos.0 == q);
                    }
                }
                assert(eager::listed_positions(next) =~= seen.insert(p));
            }
        }
        let ghost items = latest_items@;
        let index_entries = latest_items.into_entries();
        proof {
            assert(candidates@.take(candidates@.len() as int) =~= candidates@);
            assert(eager::listed_positions(candidates@) =~= positions);
            lemma_latest_positions(
                self.store,
                self.composite_index,
                items,
                positions,
                count as nat,
            );
            assert forall|i: int| 0 <= i < index_entries@.len() implies (
            #[trigger] index_entries@[i]).index == self.composite_index && index_entries@[i].wf() by {
                assert(items[i] == item_at(
                    self.store,
                    self.composite_index,
                    items[i].entry.pos.0,
                ));
                assert(positions.contains(items[i].entry.pos.0));
                let j = choose|j: int|
                    0 <= j < candidates@.len() && (#[trigger] candidates@[j]).pos.0
                        == items[i].entry.pos.0;
                assert(candidates@[j].wf());
            }
        }
        self.eager_revset(index_entries)
    }
}

} // verus!
