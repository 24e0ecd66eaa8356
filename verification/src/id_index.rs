//! A sorted multimap from identifiers to values, looked up by prefix.

use crate::hex_prefix;
use crate::hex_prefix::{HexPrefix, PrefixResolution};
use crate::object_id;
use crate::object_id::ObjectId;
use crate::sort;
use crate::sort::SortItem;
use vstd::prelude::*;

verus! {

impl<K: ObjectId, V> SortItem for (K, V) {
    open spec fn sorts_before(&self, other: &Self) -> bool {
        object_id::lex_le(self.0.bytes(), other.0.bytes())
    }

    proof fn lemma_total_preorder(a: &Self, b: &Self, c: &Self) {
        object_id::lemma_lex_total(a.0.bytes(), b.0.bytes());
        if a.sorts_before(b) && b.sorts_before(c) {
            object_id::lemma_between(a.0.bytes(), b.0.bytes(), c.0.bytes());
        }
    }

    fn is_before(&self, other: &Self) -> (before: bool) {
        proof {
            object_id::lemma_lex_total(self.0.bytes(), other.0.bytes());
        }
        !object_id::bytes_lt(other.0.as_bytes(), self.0.as_bytes())
    }
}

/// The entries whose key starts with the digits, in the order of `entries`.
pub open spec fn entries_with_prefix<K: ObjectId, V>(
    entries: Seq<(K, V)>,
    digits: Seq<u8>,
) -> Seq<(K, V)> {
    entries.filter(|entry: (K, V)| hex_prefix::starts_with_digits(digits, entry.0.bytes()))
}

/// All entries have the same key.
pub open spec fn have_one_key<K: ObjectId, V>(entries: Seq<(K, V)>) -> bool {
    forall|i: int, j: int|
        0 <= i < entries.len() && 0 <= j < entries.len() ==> (#[trigger] entries[i]).0.bytes() == (
        #[trigger] entries[j]).0.bytes()
}

/// The first `len` digits of `key` tell it from every other key of the entries. Where such a key
/// starts with all of `key`, that takes one more than the digits of `key`: it also has to be said
/// that they are the whole of it.
pub open spec fn disambiguates<K: ObjectId, V>(
    entries: Seq<(K, V)>,
    key: Seq<u8>,
    len: nat,
) -> bool {
    forall|i: int|
        #![trigger entries[i]]
        0 <= i < entries.len() && entries[i].0.bytes() != key ==> object_id::common_prefix_len(
            object_id::hex_digits(key),
            object_id::hex_digits(entries[i].0.bytes()),
        ) < len
}

/// The item that the option holds, if any.
pub open spec fn option_items<T>(item: Option<T>) -> Seq<T> {
    match item {
        Some(item) => seq![item],
        None => seq![],
    }
}

/// Calls `itertools::chain` on two options, and collects what the iterator that it returns
/// yields: the items of its first argument, then those of its second.
#[verifier::external_body]
fn chain<T>(first: Option<T>, second: Option<T>) -> (items: Vec<T>)
    ensures
        items@ == option_items(first) + option_items(second),
{
    itertools::chain(first, second).collect()
}

/// A multimap from identifiers to values, which finds its entries by a prefix of the key.
#[derive(Debug)]
pub struct IdIndex<K: ObjectId, V>(Vec<(K, V)>);

impl<K: ObjectId, V> View for IdIndex<K, V> {
    type V = Seq<(K, V)>;

    closed spec fn view(&self) -> Seq<(K, V)> {
        self.0@
    }
}

impl<K: ObjectId, V> IdIndex<K, V> {
    #[verifier::type_invariant]
    spec fn sorted_by_key(self) -> bool {
        sort::is_sorted(self.0@)
    }

    /// Creates new index from the given entries. Multiple values can be
    /// associated with a single key.
    pub fn from_vec(vec: Vec<(K, V)>) -> (index: Self)
        ensures
            index@.to_multiset() == vec@.to_multiset(),
            sort::is_sorted(index@),
    {
        IdIndex(sort::sort(vec))
    }

    /// The position of the first entry whose key is not below `bytes`.
    fn partition_point(&self, bytes: &[u8]) -> (pos: usize)
        ensures
            pos <= self@.len(),
            forall|i: int|
                0 <= i < pos ==> object_id::lex_lt((#[trigger] self@[i]).0.bytes(), bytes@),
            forall|i: int|
                pos <= i < self@.len() ==> object_id::lex_le(bytes@, (#[trigger] self@[i]).0.bytes()),
    {
        proof {
            use_type_invariant(self);
        }
        let mut low: usize = 0;
        let mut high: usize = self.0.len();
        while low < high
            invariant
                low <= high <= self@.len(),
                sort::is_sorted(self@),
                self@ == self.0@,
                forall|i: int|
                    0 <= i < low ==> object_id::lex_lt((#[trigger] self@[i]).0.bytes(), bytes@),
                forall|i: int|
                    high <= i < self@.len() ==> object_id::lex_le(
                        bytes@,
                        (#[trigger] self@[i]).0.bytes(),
                    ),
            decreases high - low,
        {
            let mid = low + (high - low) / 2;
            let ghost middle = self@[mid as int].0.bytes();
            if object_id::bytes_lt(self.0[mid].0.as_bytes(), bytes) {
                assert forall|i: int| 0 <= i <= mid implies object_id::lex_lt(
                    (#[trigger] self@[i]).0.bytes(),
                    bytes@,
                ) by {
                    if i < mid {
                        assert(self@[i].sorts_before(&self@[mid as int]));
                        object_id::lemma_between(self@[i].0.bytes(), middle, bytes@);
                    }
                }
                low = mid + 1;
            } else {
                proof {
                    object_id::lemma_lex_total(middle, bytes@);
                }
                assert forall|i: int| mid <= i < self@.len() implies object_id::lex_le(
                    bytes@,
                    (#[trigger] self@[i]).0.bytes(),
                ) by {
                    if mid < i {
                        assert(self@[mid as int].sorts_before(&self@[i]));
                        object_id::lemma_between(bytes@, middle, self@[i].0.bytes());
                    }
                }
                high = mid;
            }
        }
        low
    }

    /// The value of the first entry with the key.
    pub fn first_value(&self, key: &K) -> (value: Option<&V>)
        ensures
            match value {
                Some(value) => exists|i: int|
                    {
                        &&& 0 <= i < self@.len()
                        &&& (#[trigger] self@[i]).0.bytes() == key.bytes()
                        &&& self@[i].1 == *value
                        &&& forall|j: int|
                            0 <= j < i ==> (#[trigger] self@[j]).0.bytes() != key.bytes()
                    },
                None => forall|i: int|
                    0 <= i < self@.len() ==> (#[trigger] self@[i]).0.bytes() != key.bytes(),
            },
    {
        proof {
            use_type_invariant(self);
            object_id::lemma_lex_total(key.bytes(), key.bytes());
        }
        let pos = self.partition_point(key.as_bytes());
        if pos < self.0.len() && object_id::bytes_eq(self.0[pos].0.as_bytes(), key.as_bytes()) {
            return Some(&self.0[pos].1);
        }
        assert forall|i: int| 0 <= i < self@.len() implies (#[trigger] self@[i]).0.bytes()
            != key.bytes() by {
            if pos < i && self@[i].0.bytes() == key.bytes() {
                assert(self@[pos as int].sorts_before(&self@[i]));
                object_id::lemma_lex_total(self@[pos as int].0.bytes(), key.bytes());
            }
        }
        None
    }

    /// Iterates over entries with the given prefix.
    pub fn resolve_prefix_range<'a>(&'a self, prefix: &HexPrefix) -> (range: Vec<(&'a K, &'a V)>)
        ensures
            range@ == entries_with_prefix(self@, prefix@).map_values(
                |entry: (K, V)| (&entry.0, &entry.1),
            ),
    {
        proof {
            use_type_invariant(self);
        }
        let min_bytes = prefix.min_prefix_bytes();
        let pos = self.partition_point(min_bytes);
        let mut range: Vec<(&'a K, &'a V)> = Vec::new();
        let mut end: usize = pos;
        while end < self.0.len() && prefix.matches(&self.0[end].0)
            invariant
                pos <= end <= self@.len(),
                self@ == self.0@,
                range@.len() == end - pos,
                forall|i: int|
                    0 <= i < range@.len() ==> #[trigger] range@[i] == (
                        &self@[pos + i].0,
                        &self@[pos + i].1,
                    ),
                forall|i: int|
                    pos <= i < end ==> hex_prefix::starts_with_digits(
                        prefix@,
                        (#[trigger] self@[i]).0.bytes(),
                    ),
            decreases self@.len() - end,
        {
            range.push((&self.0[end].0, &self.0[end].1));
            end = end + 1;
        }
        proof {
            let pred = |entry: (K, V)|
                hex_prefix::starts_with_digits(prefix@, entry.0.bytes());
            let before = self@.take(pos as int);
            let within = self@.subrange(pos as int, end as int);
            let after = self@.skip(end as int);
            assert forall|i: int| 0 <= i < before.len() implies !pred(#[trigger] before[i]) by {
                lemma_below_min_prefix(min_bytes@, prefix@, before[i].0.bytes());
            }
            assert forall|i: int| 0 <= i < after.len() implies !pred(#[trigger] after[i]) by {
                let first = self@[end as int].0.bytes();
                assert(after[i] == self@[end + i]);
                if i > 0 {
                    assert(self@[end as int].sorts_before(&self@[end + i]));
                }
                if pred(after[i]) {
                    lemma_prefix_convex(min_bytes@, prefix@, first, after[i].0.bytes());
                }
            }
            before.lemma_all_neg_filter_empty(pred);
            after.lemma_all_neg_filter_empty(pred);
            lemma_filter_all(within, pred);
            Seq::filter_distributes_over_add(before, within + after, pred);
            Seq::filter_distributes_over_add(within, after, pred);
            assert(self@ =~= before + (within + after));
            assert(entries_with_prefix(self@, prefix@) =~= within);
            assert(range@ =~= within.map_values(|entry: (K, V)| (&entry.0, &entry.1)));
        }
        range
    }

    /// Looks up entries with the given prefix, and collects values if matched
    /// entries have unambiguous keys. Only values of the first key are mapped.
    pub fn resolve_prefix_with<U, F: Fn(&V) -> U>(
        &self,
        prefix: &HexPrefix,
        value_mapper: F,
    ) -> (resolution: PrefixResolution<Vec<U>>)
        requires
            ({
                let matched = entries_with_prefix(self@, prefix@);
                forall|i: int|
                    0 <= i < matched.len() && (#[trigger] matched[i]).0.bytes()
                        == matched[0].0.bytes() ==> call_requires(value_mapper, (&matched[i].1,))
            }),
        ensures
            ({
                let matched = entries_with_prefix(self@, prefix@);
                &&& resolution is NoMatch <==> matched.len() == 0
                &&& resolution is AmbiguousMatch <==> !have_one_key(matched)
                &&& resolution matches PrefixResolution::SingleMatch(values) ==> {
                    &&& values@.len() == matched.len()
                    &&& forall|i: int|
                        0 <= i < matched.len() ==> call_ensures(
                            value_mapper,
                            (&matched[i].1,),
                            #[trigger] values@[i],
                        )
                }
            }),
    {
        let range = self.resolve_prefix_range(prefix);
        let ghost matched = entries_with_prefix(self@, prefix@);
        if range.len() == 0 {
            return PrefixResolution::NoMatch;
        }
        let first_key = range[0].0;
        let mut values: Vec<U> = Vec::with_capacity(range.len());
        for i in 0..range.len()
            invariant
                matched == entries_with_prefix(self@, prefix@),
                matched.len() > 0,
                range@ == matched.map_values(|entry: (K, V)| (&entry.0, &entry.1)),
                first_key == matched[0].0,
                forall|j: int|
                    0 <= j < matched.len() && (#[trigger] matched[j]).0.bytes()
                        == matched[0].0.bytes() ==> call_requires(
                        value_mapper,
                        (&matched[j].1,),
                    ),
                values@.len() == i,
                forall|j: int|
                    0 <= j < i ==> (#[trigger] matched[j]).0.bytes() == first_key.bytes(),
                forall|j: int|
                    0 <= j < i ==> call_ensures(
                        value_mapper,
                        (&matched[j].1,),
                        #[trigger] values@[j],
                    ),
        {
            assert(range@[i as int] == (&matched[i as int].0, &matched[i as int].1));
            if !object_id::bytes_eq(range[i].0.as_bytes(), first_key.as_bytes()) {
                assert(matched[i as int].0.bytes() != matched[0].0.bytes());
                return PrefixResolution::AmbiguousMatch;
            }
            values.push(value_mapper(range[i].1));
        }
        PrefixResolution::SingleMatch(values)
    }

    /// This function returns the shortest length of a prefix of `key` that
    /// disambiguates it from every other key in the index.
    ///
    /// The length to be returned is a number of hexadecimal digits.
    ///
    /// This has some properties that we do not currently make much use of:
    ///
    /// - The algorithm works even if `key` itself is not in the index.
    ///
    /// - In the special case when there are keys in the trie for which our
    ///   `key` is an exact prefix, returns `key.len() + 1`. Conceptually, in
    ///   order to disambiguate, you need every letter of the key *and* the
    ///   additional fact that it's the entire key). This case is extremely
    ///   unlikely for hashes with 12+ hexadecimal characters.
    pub fn shortest_unique_prefix_len(&self, key: &K) -> (len: usize)
        requires
            2 * key.bytes().len() < usize::MAX,
        ensures
            disambiguates(self@, key.bytes(), len as nat),
            forall|shorter: nat| shorter < len ==> !disambiguates(self@, key.bytes(), shorter),
    {
        proof {
            use_type_invariant(self);
        }
        let key_bytes = key.as_bytes();
        let pos = self.partition_point(key_bytes);
        let left: Option<usize> = if pos > 0 {
            Some(pos - 1)
        } else {
            None
        };
        let mut next: usize = pos;
        while next < self.0.len() && object_id::bytes_eq(self.0[next].0.as_bytes(), key_bytes)
            invariant
                pos <= next <= self@.len(),
                self@ == self.0@,
                key_bytes@ == key.bytes(),
                forall|i: int| pos <= i < next ==> (#[trigger] self@[i]).0.bytes() == key.bytes(),
            decreases self@.len() - next,
        {
            next = next + 1;
        }
        let right: Option<usize> = if next < self.0.len() {
            Some(next)
        } else {
            None
        };
        let neighbors = chain(left, right);
        let ghost digits = object_id::hex_digits(key.bytes());
        let mut len: usize = 0;
        for i in 0..neighbors.len()
            invariant
                self@ == self.0@,
                key_bytes@ == key.bytes(),
                2 * key.bytes().len() < usize::MAX,
                digits == object_id::hex_digits(key.bytes()),
                neighbors@ == option_items(left) + option_items(right),
                forall|j: int|
                    0 <= j < neighbors@.len() ==> (#[trigger] neighbors@[j]) < self@.len()
                        && self@[neighbors@[j] as int].0.bytes() != key.bytes(),
                forall|j: int|
                    0 <= j < i ==> object_id::common_prefix_len(
                        digits,
                        object_id::hex_digits(self@[(#[trigger] neighbors@[j]) as int].0.bytes()),
                    ) < len,
                len > 0 ==> exists|j: int|
                    0 <= j < i && object_id::common_prefix_len(
                        digits,
                        object_id::hex_digits(self@[(#[trigger] neighbors@[j]) as int].0.bytes()),
                    ) + 1 == len,
        {
            let neighbor = &self.0[neighbors[i]].0;
            let common = object_id::common_hex_len(key_bytes, neighbor.as_bytes());
            proof {
                object_id::lemma_common_prefix(digits, object_id::hex_digits(neighbor.bytes()));
            }
            if common + 1 > len {
                len = common + 1;
            }
        }
        assert(disambiguates(self@, key.bytes(), len as nat)) by {
            assert forall|i: int|
                #![trigger self@[i]]
                0 <= i < self@.len() && self@[i].0.bytes()
                    != key.bytes() implies object_id::common_prefix_len(
                digits,
                object_id::hex_digits(self@[i].0.bytes()),
            ) < len by {
                let other = self@[i].0.bytes();
                if i < pos {
                    let nearest = self@[pos - 1].0.bytes();
                    assert(neighbors@[0] == pos - 1);
                    if i < pos - 1 {
                        assert(self@[i].sorts_before(&self@[pos - 1]));
                    }
                    lemma_nearer_shares_more(other, nearest, key.bytes());
                } else {
                    let nearest = self@[next as int].0.bytes();
                    assert(neighbors@.last() == next);
                    if next < i {
                        assert(self@[next as int].sorts_before(&self@[i]));
                    }
                    lemma_nearer_shares_more(key.bytes(), nearest, other);
                }
            }
        }
        len
    }
}

/// Bytes below the least that start with the digits do not start with them.
proof fn lemma_below_min_prefix(min_bytes: Seq<u8>, digits: Seq<u8>, bytes: Seq<u8>)
    requires
        hex_prefix::is_min_prefix_of(min_bytes, digits),
        object_id::lex_lt(bytes, min_bytes),
    ensures
        !hex_prefix::starts_with_digits(digits, bytes),
{
    let min_digits = object_id::hex_digits(min_bytes);
    let own_digits = object_id::hex_digits(bytes);
    object_id::lemma_hex_order(bytes, min_bytes);
    if hex_prefix::starts_with_digits(digits, bytes) {
        let n = digits.len();
        assert(forall|i: int| 0 <= i < n ==> digits[i] == own_digits.subrange(0, n as int)[i]);
        if min_digits.len() > n && own_digits[n as int] != 0 {
            object_id::lemma_common_prefix_unique(own_digits, min_digits, n);
        } else {
            object_id::lemma_common_prefix_unique(own_digits, min_digits, min_digits.len());
        }
    }
}

/// Bytes between the least that start with the digits and others that do start with them too.
proof fn lemma_prefix_convex(min_bytes: Seq<u8>, digits: Seq<u8>, between: Seq<u8>, bytes: Seq<u8>)
    requires
        hex_prefix::is_min_prefix_of(min_bytes, digits),
        object_id::lex_le(min_bytes, between),
        object_id::lex_le(between, bytes),
        hex_prefix::starts_with_digits(digits, bytes),
    ensures
        hex_prefix::starts_with_digits(digits, between),
{
    let low = object_id::hex_digits(min_bytes);
    let middle = object_id::hex_digits(between);
    let high = object_id::hex_digits(bytes);
    object_id::lemma_hex_order(min_bytes, between);
    object_id::lemma_hex_order(between, bytes);
    object_id::lemma_between(low, middle, high);
    object_id::lemma_common_prefix(low, high);
    object_id::lemma_common_prefix(low, middle);
    let n = digits.len() as int;
    assert(forall|i: int| 0 <= i < n ==> digits[i] == high.subrange(0, n)[i]);
    assert(digits =~= middle.subrange(0, n));
}

/// What lies between two keys shares as many digits with each as they share, or more.
proof fn lemma_nearer_shares_more(a: Seq<u8>, b: Seq<u8>, c: Seq<u8>)
    requires
        object_id::lex_le(a, b),
        object_id::lex_le(b, c),
    ensures
        ({
            let (a, b, c) = (
                object_id::hex_digits(a),
                object_id::hex_digits(b),
                object_id::hex_digits(c),
            );
            &&& object_id::common_prefix_len(a, c) <= object_id::common_prefix_len(a, b)
            &&& object_id::common_prefix_len(c, a) <= object_id::common_prefix_len(c, b)
        }),
{
    object_id::lemma_hex_order(a, b);
    object_id::lemma_hex_order(b, c);
    let (a, b, c) = (
        object_id::hex_digits(a),
        object_id::hex_digits(b),
        object_id::hex_digits(c),
    );
    object_id::lemma_between(a, b, c);
    object_id::lemma_common_prefix_symmetric(a, c);
    object_id::lemma_common_prefix_symmetric(b, c);
}

proof fn lemma_filter_all<A>(s: Seq<A>, pred: spec_fn(A) -> bool)
    requires
        forall|i: int| 0 <= i < s.len() ==> pred(#[trigger] s[i]),
    ensures
        s.filter(pred) == s,
    decreases s.len(),
{
    reveal(Seq::filter);
    if s.len() > 0 {
        lemma_filter_all(s.drop_last(), pred);
        assert(s.drop_last().push(s.last()) =~= s);
    }
}

/// Another key starts with the first `n` digits of `key` if and only if they have so many digits in
/// common.
pub proof fn lemma_shares_digits(key: Seq<u8>, other: Seq<u8>, n: nat)
    requires
        n <= object_id::hex_digits(key).len(),
    ensures
        hex_prefix::starts_with_digits(object_id::hex_digits(key).take(n as int), other)
            <==> n <= object_id::common_prefix_len(
            object_id::hex_digits(key),
            object_id::hex_digits(other),
        ),
{
    let digits = object_id::hex_digits(key);
    let others = object_id::hex_digits(other);
    let prefix = digits.take(n as int);
    let common = object_id::common_prefix_len(digits, others);
    object_id::lemma_common_prefix(digits, others);
    if n <= common {
        assert(prefix =~= others.subrange(0, n as int));
    }
    if prefix.is_prefix_of(others) && common < n {
        assert(prefix[common as int] == others.subrange(0, n as int)[common as int]);
    }
}

/// A prefix of a key that disambiguates it stands for no other key, and for it if it is among the
/// entries.
pub proof fn law_unique_prefix<K: ObjectId, V>(entries: Seq<(K, V)>, key: Seq<u8>, len: nat)
    requires
        disambiguates(entries, key, len),
        len <= object_id::hex_digits(key).len(),
    ensures
        ({
            let matched = entries_with_prefix(entries, object_id::hex_digits(key).take(len as int));
            &&& have_one_key(matched)
            &&& forall|i: int| 0 <= i < matched.len() ==> (#[trigger] matched[i]).0.bytes() == key
            &&& matched.len() > 0 <==> exists|i: int|
                0 <= i < entries.len() && (#[trigger] entries[i]).0.bytes() == key
        }),
{
    let digits = object_id::hex_digits(key);
    let pred = |entry: (K, V)|
        hex_prefix::starts_with_digits(digits.take(len as int), entry.0.bytes());
    let matched = entries_with_prefix(entries, digits.take(len as int));
    assert(matched == entries.filter(pred));
    assert forall|i: int| 0 <= i < matched.len() implies (#[trigger] matched[i]).0.bytes() == key
        && entries.contains(matched[i]) by {
        entries.lemma_filter_pred(pred, i);
        entries.lemma_filter_contains_rev(pred, matched[i]);
        let j = choose|j: int| 0 <= j < entries.len() && entries[j] == matched[i];
        lemma_shares_digits(key, entries[j].0.bytes(), len);
    }
    if exists|i: int| 0 <= i < entries.len() && (#[trigger] entries[i]).0.bytes() == key {
        let i = choose|i: int| 0 <= i < entries.len() && (#[trigger] entries[i]).0.bytes() == key;
        object_id::lemma_common_prefix_unique(digits, digits, digits.len());
        lemma_shares_digits(key, key, len);
        entries.lemma_filter_contains(pred, i);
    }
    if matched.len() > 0 {
        let j = choose|j: int| 0 <= j < entries.len() && entries[j] == matched[0];
        assert(entries[j].0.bytes() == key);
    }
}

/// A prefix of a key that does not disambiguate it stands for another key too.
pub proof fn law_shared_prefix<K: ObjectId, V>(entries: Seq<(K, V)>, key: Seq<u8>, len: nat)
    requires
        !disambiguates(entries, key, len),
        len <= object_id::hex_digits(key).len(),
    ensures
        ({
            let matched = entries_with_prefix(entries, object_id::hex_digits(key).take(len as int));
            &&& exists|i: int| 0 <= i < matched.len() && (#[trigger] matched[i]).0.bytes() != key
            &&& (exists|i: int| 0 <= i < entries.len() && (#[trigger] entries[i]).0.bytes() == key)
                ==> !have_one_key(matched)
        }),
{
    let digits = object_id::hex_digits(key);
    let pred = |entry: (K, V)|
        hex_prefix::starts_with_digits(digits.take(len as int), entry.0.bytes());
    let matched = entries_with_prefix(entries, digits.take(len as int));
    assert(matched == entries.filter(pred));
    let other = choose|i: int|
        #![trigger entries[i]]
        0 <= i < entries.len() && entries[i].0.bytes() != key && object_id::common_prefix_len(
            digits,
            object_id::hex_digits(entries[i].0.bytes()),
        ) >= len;
    lemma_shares_digits(key, entries[other].0.bytes(), len);
    entries.lemma_filter_contains(pred, other);
    let i = choose|i: int| 0 <= i < matched.len() && matched[i] == entries[other];
    assert(matched[i].0.bytes() != key);
    if exists|j: int| 0 <= j < entries.len() && (#[trigger] entries[j]).0.bytes() == key {
        let own = choose|j: int| 0 <= j < entries.len() && (#[trigger] entries[j]).0.bytes() == key;
        object_id::lemma_common_prefix_unique(digits, digits, digits.len());
        lemma_shares_digits(key, key, len);
        entries.lemma_filter_contains(pred, own);
        let j = choose|j: int| 0 <= j < matched.len() && matched[j] == entries[own];
        assert(matched[j].0.bytes() == key);
    }
}

/// The shortest length that disambiguates a key is at most one more than the number of its digits.
/// It is that where another key starts with all of them, and only there.
pub proof fn law_prefix_of_another_key<K: ObjectId, V>(
    entries: Seq<(K, V)>,
    key: Seq<u8>,
    len: nat,
)
    requires
        disambiguates(entries, key, len),
        forall|shorter: nat| shorter < len ==> !disambiguates(entries, key, shorter),
    ensures
        len <= object_id::hex_digits(key).len() + 1,
        len == object_id::hex_digits(key).len() + 1 <==> exists|i: int|
            0 <= i < entries.len() && (#[trigger] entries[i]).0.bytes() != key
                && hex_prefix::starts_with_digits(
                object_id::hex_digits(key),
                entries[i].0.bytes(),
            ),
{
    let digits = object_id::hex_digits(key);
    assert(digits.take(digits.len() as int) =~= digits);
    assert forall|i: int| 0 <= i < entries.len() && (#[trigger] entries[i]).0.bytes() != key implies {
        let common = object_id::common_prefix_len(
            digits,
            object_id::hex_digits(entries[i].0.bytes()),
        );
        &&& common <= digits.len()
        &&& common == digits.len() <==> hex_prefix::starts_with_digits(
            digits,
            entries[i].0.bytes(),
        )
    } by {
        object_id::lemma_common_prefix(digits, object_id::hex_digits(entries[i].0.bytes()));
        lemma_shares_digits(key, entries[i].0.bytes(), digits.len());
    }
    assert(disambiguates(entries, key, digits.len() + 1));
    if len == digits.len() + 1 {
        assert(!disambiguates(entries, key, digits.len()));
    }
}

/// Entries that are not in the same order are told apart by the same prefixes.
pub proof fn law_order_does_not_matter<K: ObjectId, V>(
    entries: Seq<(K, V)>,
    others: Seq<(K, V)>,
    key: Seq<u8>,
    digits: Seq<u8>,
    len: nat,
)
    requires
        entries.to_multiset() == others.to_multiset(),
    ensures
        disambiguates(entries, key, len) == disambiguates(others, key, len),
        entries_with_prefix(entries, digits).to_multiset() == entries_with_prefix(
            others,
            digits,
        ).to_multiset(),
{
    let pred = |entry: (K, V)| hex_prefix::starts_with_digits(digits, entry.0.bytes());
    if disambiguates(entries, key, len) {
        lemma_disambiguates_same(entries, others, key, len);
    }
    if disambiguates(others, key, len) {
        lemma_disambiguates_same(others, entries, key, len);
    }
    assert forall|entry: (K, V)|
        entries_with_prefix(entries, digits).to_multiset().count(entry) == entries_with_prefix(
            others,
            digits,
        ).to_multiset().count(entry) by {
        lemma_filter_count(entries, pred, entry);
        lemma_filter_count(others, pred, entry);
    }
    assert(entries_with_prefix(entries, digits).to_multiset() =~= entries_with_prefix(
        others,
        digits,
    ).to_multiset());
}

proof fn lemma_disambiguates_same<K: ObjectId, V>(
    entries: Seq<(K, V)>,
    others: Seq<(K, V)>,
    key: Seq<u8>,
    len: nat,
)
    requires
        entries.to_multiset() == others.to_multiset(),
        disambiguates(entries, key, len),
    ensures
        disambiguates(others, key, len),
{
    assert forall|i: int|
        #![trigger others[i]]
        0 <= i < others.len() && others[i].0.bytes() != key implies object_id::common_prefix_len(
        object_id::hex_digits(key),
        object_id::hex_digits(others[i].0.bytes()),
    ) < len by {
        assert(others.contains(others[i]));
        vstd::seq_lib::to_multiset_contains(others, others[i]);
        vstd::seq_lib::to_multiset_contains(entries, others[i]);
        let j = choose|j: int| 0 <= j < entries.len() && entries[j] == others[i];
        assert(entries[j] == others[i]);
    }
}

proof fn lemma_filter_count<A>(s: Seq<A>, pred: spec_fn(A) -> bool, item: A)
    ensures
        s.filter(pred).to_multiset().count(item) == if pred(item) {
            s.to_multiset().count(item)
        } else {
            0
        },
    decreases s.len(),
{
    broadcast use vstd::multiset::group_multiset_axioms;

    reveal(Seq::filter);
    if s.len() == 0 {
        assert(s.filter(pred) =~= s);
        vstd::seq_lib::to_multiset_contains(s, item);
    } else {
        let rest = s.drop_last();
        lemma_filter_count(rest, pred, item);
        assert(rest.push(s.last()) =~= s);
        vstd::seq_lib::to_multiset_build(rest, s.last());
        vstd::seq_lib::to_multiset_build(rest.filter(pred), s.last());
    }
}

} // verus!
