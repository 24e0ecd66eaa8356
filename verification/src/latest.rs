//! The latest of a number of commits.

use crate::index::IndexEntry;
use crate::store::MillisSinceEpoch;
use vstd::prelude::*;

verus! {

/// An entry with its time. The position breaks ties.
#[derive(Debug, Clone, Copy)]
pub struct Item<'index> {
    pub timestamp: MillisSinceEpoch,
    pub entry: IndexEntry<'index>,
}

/// Whether `a` is earlier than `b`.
pub open spec fn is_earlier<'index>(a: Item<'index>, b: Item<'index>) -> bool {
    ||| a.timestamp.0 < b.timestamp.0
    ||| a.timestamp.0 == b.timestamp.0 && a.entry.pos.0 < b.entry.pos.0
}

/// Each item is earlier than those after it.
pub open spec fn is_ascending<'index>(items: Seq<Item<'index>>) -> bool {
    forall|i: int, j: int|
        #![trigger items[i], items[j]]
        0 <= i < j < items.len() ==> is_earlier(items[i], items[j])
}

/// A collection of items that keeps the latest, up to a number of them.
pub struct LatestItems<'index> {
    // From the earliest to the latest.
    items: Vec<Item<'index>>,
    limit: usize,
}

impl<'index> View for LatestItems<'index> {
    type V = Seq<Item<'index>>;

    /// The items that are kept, from the earliest to the latest.
    closed spec fn view(&self) -> Seq<Item<'index>> {
        self.items@
    }
}

impl<'index> LatestItems<'index> {
    /// The number of items that are kept at most.
    pub closed spec fn limit(&self) -> usize {
        self.limit
    }

    /// There are no more items than the limit, in the order of time.
    pub closed spec fn wf(&self) -> bool {
        &&& is_ascending(self.items@)
        &&& self.items@.len() <= self.limit
        &&& self.limit > 0
    }

    pub proof fn lemma_wf(&self)
        requires
            self.wf(),
        ensures
            is_ascending(self@),
            self@.len() <= self.limit(),
            self.limit() > 0,
    {
    }

    /// A collection that keeps up to `limit` items.
    pub fn new(limit: usize) -> (latest: Self)
        requires
            limit > 0,
        ensures
            latest.wf(),
            latest.limit() == limit,
            latest@.len() == 0,
    {
        LatestItems { items: Vec::new(), limit }
    }

    /// Adds the item. If there are more than the limit then, the earliest is dropped, which may be
    /// the item itself.
    pub fn add(&mut self, item: Item<'index>)
        requires
            old(self).wf(),
            forall|i: int|
                0 <= i < old(self)@.len() ==> (#[trigger] old(self)@[i]).entry.pos.0
                    != item.entry.pos.0,
        ensures
            final(self).wf(),
            final(self).limit() == old(self).limit(),
            ({
                let before = old(self)@;
                let after = final(self)@;
                if before.len() < old(self).limit() {
                    after.to_set() == before.to_set().insert(item) && after.len() == before.len()
                        + 1
                } else if is_earlier(before[0], item) {
                    after.to_set() == before.to_set().remove(before[0]).insert(item) && after.len()
                        == before.len()
                } else {
                    after == before
                }
            }),
    {
        let ghost before = self@;
        if self.items.len() >= self.limit {
            let earliest = self.items[0];
            if !earlier(&earliest, &item) {
                return ;
            }
            self.items.remove(0);
            proof {
                lemma_drop_earliest(before);
                assert(self.items@ =~= before.skip(1));
            }
        }
        let ghost kept = self.items@;
        let mut slot: usize = 0;
        while slot < self.items.len() && earlier(&self.items[slot], &item)
            invariant
                slot <= self.items@.len(),
                self.items@ == kept,
                forall|i: int| 0 <= i < slot ==> is_earlier(#[trigger] kept[i], item),
            decreases kept.len() - slot,
        {
            slot = slot + 1;
        }
        self.items.insert(slot, item);
        proof {
            assert forall|i: int| 0 <= i < kept.len() implies (#[trigger] kept[i]).entry.pos.0
                != item.entry.pos.0 by {
                if kept.len() < before.len() {
                    assert(kept[i] == before[i + 1]);
                } else {
                    assert(kept[i] == before[i]);
                }
            }
            lemma_insert_item(kept, item, slot as int);
            assert(self.items@ =~= kept.insert(slot as int, item));
        }
    }

    /// The entries of the items that are kept, from the earliest to the latest.
    pub fn into_entries(self) -> (entries: Vec<IndexEntry<'index>>)
        ensures
            entries@ == self@.map_values(|item: Item<'index>| item.entry),
    {
        let mut entries: Vec<IndexEntry<'index>> = Vec::with_capacity(self.items.len());
        for i in 0..self.items.len()
            invariant
                entries@.len() == i,
                forall|j: int| 0 <= j < i ==> #[trigger] entries@[j] == self.items@[j].entry,
        {
            entries.push(self.items[i].entry);
        }
        assert(entries@ =~= self@.map_values(|item: Item<'index>| item.entry));
        entries
    }
}

proof fn lemma_drop_earliest<'index>(items: Seq<Item<'index>>)
    requires
        is_ascending(items),
        items.len() > 0,
    ensures
        is_ascending(items.skip(1)),
        items.skip(1).to_set() == items.to_set().remove(items[0]),
{
    let rest = items.skip(1);
    assert forall|x: Item<'index>| #[trigger]
        rest.to_set().contains(x) <==> items.to_set().remove(items[0]).contains(x) by {
        if items.contains(x) && x != items[0] {
            let i = choose|i: int| 0 <= i < items.len() && items[i] == x;
            assert(rest[i - 1] == x);
        }
        if rest.contains(x) {
            let i = choose|i: int| 0 <= i < rest.len() && rest[i] == x;
            assert(items[i + 1] == x);
            assert(is_earlier(items[0], items[i + 1]));
        }
    }
    assert(rest.to_set() =~= items.to_set().remove(items[0]));
}

proof fn lemma_insert_item<'index>(items: Seq<Item<'index>>, item: Item<'index>, slot: int)
    requires
        is_ascending(items),
        0 <= slot <= items.len(),
        forall|i: int| 0 <= i < slot ==> is_earlier(#[trigger] items[i], item),
        slot < items.len() ==> !is_earlier(items[slot], item),
        forall|i: int|
            0 <= i < items.len() ==> (#[trigger] items[i]).entry.pos.0 != item.entry.pos.0,
    ensures
        is_ascending(items.insert(slot, item)),
        items.insert(slot, item).to_set() == items.to_set().insert(item),
{
    let after = items.insert(slot, item);
    assert forall|i: int, j: int|
        #![trigger after[i], after[j]]
        0 <= i < j < after.len() implies is_earlier(after[i], after[j]) by {
        if j < slot {
            assert(is_earlier(items[i], items[j]));
        } else if j == slot {
            assert(is_earlier(items[i], item));
        } else if i < slot {
            assert(is_earlier(items[i], items[j - 1]));
        } else if i == slot {
            assert(is_earlier(item, items[slot]));
            if slot < j - 1 {
                assert(is_earlier(items[slot], items[j - 1]));
            }
        } else {
            assert(is_earlier(items[i - 1], items[j - 1]));
        }
    }
    assert forall|x: Item<'index>| #[trigger]
        after.to_set().contains(x) <==> items.to_set().insert(item).contains(x) by {
        if items.contains(x) {
            let i = choose|i: int| 0 <= i < items.len() && items[i] == x;
            assert(after[if i < slot {
                i
            } else {
                i + 1
            }] == x);
        }
        assert(after[slot] == item);
        if after.contains(x) && x != item {
            let i = choose|i: int| 0 <= i < after.len() && after[i] == x;
            assert(items[if i < slot {
                i
            } else {
                i - 1
            }] == x);
        }
    }
    assert(after.to_set() =~= items.to_set().insert(item));
}

/// Whether `a` is earlier than `b`.
fn earlier<'index>(a: &Item<'index>, b: &Item<'index>) -> (result: bool)
    ensures
        result == is_earlier(*a, *b),
{
    a.timestamp.0 < b.timestamp.0 || (a.timestamp.0 == b.timestamp.0 && a.entry.pos.0
        < b.entry.pos.0)
}

} // verus!
