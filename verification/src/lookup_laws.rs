//! Laws of lookups by a prefix, in terms of the bytes of the identifiers.
//!
//! A byte is spelt by two digits, the high half first: the digit at place `j` of an identifier is
//! half of its byte at `j / 2`.

use crate::change_id_index;
use crate::graph::IndexedCommit;
use crate::hex_prefix;
use crate::id_index;
use crate::object_id;
use crate::object_id::ObjectId;
use crate::sort;
use crate::sort::SortItem;
use vstd::prelude::*;

verus! {

/// The value of a hexadecimal digit counts up from `0` to `9` and on from `a` to `f`, in either case
/// of the letters. Nothing else is a digit.
pub proof fn law_hex_value(c: char)
    ensures
        '0' <= c <= '9' ==> (object_id::hex_value(c) matches Some(value) && value == c as int
            - '0' as int),
        'a' <= c <= 'f' ==> (object_id::hex_value(c) matches Some(value) && value == c as int
            - 'a' as int + 10),
        'A' <= c <= 'F' ==> (object_id::hex_value(c) matches Some(value) && value == c as int
            - 'A' as int + 10),
        object_id::hex_value(c) is Some ==> '0' <= c <= '9' || 'a' <= c <= 'f' || 'A' <= c <= 'F',
{
}

/// A text is hexadecimal if all of its characters are digits, and then spells their values.
pub proof fn law_hex_text(text: Seq<char>, i: int)
    requires
        0 <= i < text.len(),
    ensures
        object_id::is_hex(text) ==> object_id::hex_value(text[i]) is Some,
        object_id::hex_text_digits(text).len() == text.len(),
        object_id::is_hex(text) ==> object_id::hex_value(text[i]) == Some(
            object_id::hex_text_digits(text)[i],
        ),
{
}

/// A text that is not hexadecimal has a character that is no digit.
pub proof fn law_not_hex_text(text: Seq<char>) -> (i: int)
    requires
        !object_id::is_hex(text),
    ensures
        0 <= i < text.len(),
        object_id::hex_value(text[i]) is None,
{
    choose|i: int| 0 <= i < text.len() && !(object_id::hex_value(#[trigger] text[i]) is Some)
}

/// The digits of bytes are the halves of the bytes, the high half of each first.
pub proof fn law_digits_of_bytes(bytes: Seq<u8>, k: int)
    requires
        0 <= k < bytes.len(),
    ensures
        object_id::hex_digits(bytes).len() == 2 * bytes.len(),
        object_id::hex_digits(bytes)[2 * k] * 16 + object_id::hex_digits(bytes)[2 * k + 1]
            == bytes[k],
        object_id::hex_digits(bytes)[2 * k] < 16,
        object_id::hex_digits(bytes)[2 * k + 1] < 16,
{
    assert((2 * k) / 2 == k && (2 * k + 1) / 2 == k && (2 * k) % 2 == 0 && (2 * k + 1) % 2 == 1);
}

/// Bytes start with digits if they have at least so many, and these are the first of them.
pub proof fn law_starts_with_digits(digits: Seq<u8>, bytes: Seq<u8>)
    ensures
        hex_prefix::starts_with_digits(digits, bytes) <==> {
            &&& digits.len() <= 2 * bytes.len()
            &&& forall|j: int|
                0 <= j < digits.len() ==> (#[trigger] digits[j]) == if j % 2 == 0 {
                    bytes[j / 2] / 16
                } else {
                    bytes[j / 2] % 16
                }
        },
{
    let spelt = object_id::hex_digits(bytes);
    let n = digits.len() as int;
    if hex_prefix::starts_with_digits(digits, bytes) {
        assert(digits == spelt.subrange(0, n));
        assert forall|j: int| 0 <= j < n implies (#[trigger] digits[j]) == if j % 2 == 0 {
            bytes[j / 2] / 16
        } else {
            bytes[j / 2] % 16
        } by {
            assert(spelt.subrange(0, n)[j] == spelt[j]);
        }
    }
    if digits.len() <= 2 * bytes.len() && forall|j: int|
        0 <= j < digits.len() ==> (#[trigger] digits[j]) == if j % 2 == 0 {
            bytes[j / 2] / 16
        } else {
            bytes[j / 2] % 16
        } {
        assert(digits =~= spelt.subrange(0, n));
    }
}

/// The common prefix of two sequences goes as far as they are the same, and no farther.
pub proof fn law_common_prefix(a: Seq<u8>, b: Seq<u8>, i: int)
    ensures
        object_id::common_prefix_len(a, b) <= a.len(),
        object_id::common_prefix_len(a, b) <= b.len(),
        0 <= i < object_id::common_prefix_len(a, b) ==> a[i] == b[i],
        0 <= i < a.len() && i < b.len() && i == object_id::common_prefix_len(a, b) ==> a[i] != b[i],
{
    object_id::lemma_common_prefix(a, b);
}

/// The least bytes that start with digits are as many as it takes to hold them. They start with the
/// digits, and have a zero after an odd last digit.
pub proof fn law_least_bytes_with_digits(bytes: Seq<u8>, digits: Seq<u8>)
    requires
        hex_prefix::is_min_prefix_of(bytes, digits),
    ensures
        bytes.len() == (digits.len() + 1) / 2,
        hex_prefix::starts_with_digits(digits, bytes),
        digits.len() % 2 == 1 ==> bytes.last() % 16 == 0,
{
    let spelt = object_id::hex_digits(bytes);
    assert(digits =~= spelt.subrange(0, digits.len() as int));
    if digits.len() % 2 == 1 {
        assert(spelt == digits.push(0));
        assert(2 * bytes.len() == digits.len() + 1);
        law_digits_of_bytes(bytes, bytes.len() - 1);
        assert(spelt[2 * (bytes.len() - 1) + 1] == 0);
    }
}

/// The entries with a prefix are those at some places, in the order of the places.
pub proof fn law_places_of_entries_with_prefix<K: ObjectId, V>(
    entries: Seq<(K, V)>,
    digits: Seq<u8>,
) -> (places: Seq<int>)
    ensures
        ({
            let matched = id_index::entries_with_prefix(entries, digits);
            &&& places.len() == matched.len()
            &&& forall|i: int|
                0 <= i < places.len() ==> {
                    &&& 0 <= (#[trigger] places[i]) < entries.len()
                    &&& matched[i] == entries[places[i]]
                    &&& hex_prefix::starts_with_digits(digits, matched[i].0.bytes())
                }
            &&& forall|i: int, j: int| 0 <= i < j < places.len() ==> places[i] < places[j]
            &&& forall|j: int|
                0 <= j < entries.len() && hex_prefix::starts_with_digits(
                    digits,
                    (#[trigger] entries[j]).0.bytes(),
                ) ==> places.contains(j)
        }),
    decreases entries.len(),
{
    reveal(Seq::filter);
    let matched = id_index::entries_with_prefix(entries, digits);
    if entries.len() == 0 {
        Seq::empty()
    } else {
        let rest = entries.drop_last();
        let last = entries.len() - 1;
        let earlier = law_places_of_entries_with_prefix(rest, digits);
        let matched_rest = id_index::entries_with_prefix(rest, digits);
        if hex_prefix::starts_with_digits(digits, entries.last().0.bytes()) {
            let places = earlier.push(last);
            assert(matched == matched_rest.push(entries.last()));
            assert forall|j: int|
                0 <= j < entries.len() && hex_prefix::starts_with_digits(
                    digits,
                    (#[trigger] entries[j]).0.bytes(),
                ) implies places.contains(j) by {
                if j < last {
                    assert(rest[j] == entries[j]);
                    let i = choose|i: int| 0 <= i < earlier.len() && earlier[i] == j;
                    assert(places[i] == j);
                } else {
                    assert(places[places.len() - 1] == j);
                }
            }
            assert forall|i: int| 0 <= i < places.len() implies {
                &&& 0 <= (#[trigger] places[i]) < entries.len()
                &&& matched[i] == entries[places[i]]
                &&& hex_prefix::starts_with_digits(digits, matched[i].0.bytes())
            } by {
                if i < earlier.len() {
                    assert(places[i] == earlier[i]);
                    assert(matched_rest[i] == rest[earlier[i]]);
                }
            }
            places
        } else {
            assert(matched == matched_rest);
            assert forall|j: int|
                0 <= j < entries.len() && hex_prefix::starts_with_digits(
                    digits,
                    (#[trigger] entries[j]).0.bytes(),
                ) implies earlier.contains(j) by {
                assert(rest[j] == entries[j]);
            }
            assert forall|i: int| 0 <= i < earlier.len() implies {
                &&& 0 <= (#[trigger] earlier[i]) < entries.len()
                &&& matched[i] == entries[earlier[i]]
                &&& hex_prefix::starts_with_digits(digits, matched[i].0.bytes())
            } by {
                assert(matched_rest[i] == rest[earlier[i]]);
            }
            earlier
        }
    }
}

/// Entries have one key if no two have different ones.
pub proof fn law_one_key<K: ObjectId, V>(entries: Seq<(K, V)>, i: int, j: int)
    requires
        id_index::have_one_key(entries),
        0 <= i < entries.len(),
        0 <= j < entries.len(),
    ensures
        entries[i].0.bytes() == entries[j].0.bytes(),
{
}

/// Of entries that do not have one key, two have different ones.
pub proof fn law_two_keys<K: ObjectId, V>(entries: Seq<(K, V)>) -> (places: (int, int))
    requires
        !id_index::have_one_key(entries),
    ensures
        0 <= places.0 < entries.len(),
        0 <= places.1 < entries.len(),
        entries[places.0].0.bytes() != entries[places.1].0.bytes(),
{
    choose|i: int, j: int|
        0 <= i < entries.len() && 0 <= j < entries.len() && (#[trigger] entries[i]).0.bytes() != (
        #[trigger] entries[j]).0.bytes()
}

/// A number of digits that tells a key from the others holds a place at which another key has ended
/// or has another digit.
proof fn lemma_place_of_difference(key: Seq<u8>, other: Seq<u8>, len: nat) -> (j: int)
    requires
        len <= 2 * key.len(),
        object_id::common_prefix_len(object_id::hex_digits(key), object_id::hex_digits(other)) < len,
    ensures
        0 <= j < len,
        2 * other.len() <= j || (if j % 2 == 0 {
            key[j / 2] / 16
        } else {
            key[j / 2] % 16
        }) != (if j % 2 == 0 {
            other[j / 2] / 16
        } else {
            other[j / 2] % 16
        }),
{
    let n = object_id::common_prefix_len(object_id::hex_digits(key), object_id::hex_digits(other));
    object_id::lemma_common_prefix(object_id::hex_digits(key), object_id::hex_digits(other));
    n as int
}

proof fn lemma_digits_agree(key: Seq<u8>, other: Seq<u8>, len: nat)
    requires
        len <= object_id::common_prefix_len(
            object_id::hex_digits(key),
            object_id::hex_digits(other),
        ),
    ensures
        len <= 2 * key.len(),
        len <= 2 * other.len(),
        forall|j: int|
            #![trigger key[j / 2]]
            0 <= j < len ==> (if j % 2 == 0 {
            key[j / 2] / 16
        } else {
            key[j / 2] % 16
        }) == (if j % 2 == 0 {
            other[j / 2] / 16
        } else {
            other[j / 2] % 16
        }),
{
    let (a, b) = (object_id::hex_digits(key), object_id::hex_digits(other));
    object_id::lemma_common_prefix(a, b);
    assert forall|j: int|
        #![trigger key[j / 2]]
        0 <= j < len implies (if j % 2 == 0 {
            key[j / 2] / 16
        } else {
            key[j / 2] % 16
        }) == (if j % 2 == 0 {
            other[j / 2] / 16
        } else {
            other[j / 2] % 16
        }) by {
        assert(a[j] == b[j]);
    }
}

/// Among the first digits of a key that disambiguate it is one at which a given other key has ended
/// or has another digit.
pub proof fn law_digit_that_tells<K: ObjectId, V>(
    entries: Seq<(K, V)>,
    key: Seq<u8>,
    len: nat,
    i: int,
) -> (j: int)
    requires
        id_index::disambiguates(entries, key, len),
        len <= 2 * key.len(),
        0 <= i < entries.len(),
        entries[i].0.bytes() != key,
    ensures
        ({
            let other = entries[i].0.bytes();
            &&& 0 <= j < len
            &&& 2 * other.len() <= j || (if j % 2 == 0 {
                key[j / 2] / 16
            } else {
                key[j / 2] % 16
            }) != (if j % 2 == 0 {
                other[j / 2] / 16
            } else {
                other[j / 2] % 16
            })
        }),
{
    lemma_place_of_difference(key, entries[i].0.bytes(), len)
}

/// Where the first digits of a key do not disambiguate it, they are digits of the key, and another
/// key has all of them too.
pub proof fn law_key_with_same_digits<K: ObjectId, V>(
    entries: Seq<(K, V)>,
    key: Seq<u8>,
    len: nat,
) -> (i: int)
    requires
        !id_index::disambiguates(entries, key, len),
    ensures
        0 <= i < entries.len(),
        entries[i].0.bytes() != key,
        ({
            let other = entries[i].0.bytes();
            &&& len <= 2 * key.len()
            &&& len <= 2 * other.len()
            &&& forall|j: int|
                #![trigger key[j / 2]]
                0 <= j < len ==> (if j % 2 == 0 {
                    key[j / 2] / 16
                } else {
                    key[j / 2] % 16
                }) == (if j % 2 == 0 {
                    other[j / 2] / 16
                } else {
                    other[j / 2] % 16
                })
        }),
{
    let i = choose|i: int|
        #![trigger entries[i]]
        0 <= i < entries.len() && entries[i].0.bytes() != key && object_id::common_prefix_len(
            object_id::hex_digits(key),
            object_id::hex_digits(entries[i].0.bytes()),
        ) >= len;
    lemma_digits_agree(key, entries[i].0.bytes(), len);
    i
}

/// Bytes come before others if they have ended, or have the smaller byte, where they first differ.
pub proof fn law_order_of_bytes(a: Seq<u8>, b: Seq<u8>, n: nat)
    requires
        n <= a.len(),
        n <= b.len(),
        forall|i: int| 0 <= i < n ==> #[trigger] a[i] == b[i],
    ensures
        n == a.len() && n < b.len() ==> object_id::lex_lt(a, b) && !object_id::lex_lt(b, a),
        n < a.len() && n < b.len() && a[n as int] < b[n as int] ==> object_id::lex_lt(a, b)
            && !object_id::lex_lt(b, a),
        n == a.len() && n == b.len() ==> !object_id::lex_lt(a, b) && !object_id::lex_lt(b, a),
{
    object_id::lemma_common_prefix(a, b);
    object_id::lemma_common_prefix_symmetric(a, b);
    if n == a.len() || n == b.len() || a[n as int] != b[n as int] {
        object_id::lemma_common_prefix_unique(a, b, n);
    }
}

/// Where the keys of two sorted entries first differ, the one before has ended or has the smaller
/// byte.
pub proof fn law_order_of_keys<K: ObjectId, V>(entries: Seq<(K, V)>, i: int, j: int, n: nat)
    requires
        sort::is_sorted(entries),
        0 <= i < j < entries.len(),
        n <= entries[i].0.bytes().len(),
        n <= entries[j].0.bytes().len(),
        forall|k: int|
            0 <= k < n ==> #[trigger] entries[i].0.bytes()[k] == entries[j].0.bytes()[k],
    ensures
        n == entries[i].0.bytes().len() || (n < entries[j].0.bytes().len()
            && entries[i].0.bytes()[n as int] <= entries[j].0.bytes()[n as int]),
{
    let a = entries[i].0.bytes();
    let b = entries[j].0.bytes();
    assert(entries[i].sorts_before(&entries[j]));
    object_id::lemma_common_prefix(a, b);
    if n < a.len() && (n == b.len() || a[n as int] != b[n as int]) {
        object_id::lemma_common_prefix_unique(a, b, n);
    }
}

/// Commits with a prefix of the identifier of their change are those of the set whose change has
/// it.
pub proof fn law_changes_with_prefix(
    graph: Seq<IndexedCommit>,
    positions: Set<u32>,
    digits: Seq<u8>,
    p: u32,
)
    ensures
        change_id_index::changes_with_prefix(graph, positions, digits).contains(p) <==> {
            let change_id = graph[p as int].change_id;
            &&& positions.contains(p)
            &&& digits.len() <= 2 * change_id.len()
            &&& forall|j: int|
                0 <= j < digits.len() ==> (#[trigger] digits[j]) == if j % 2 == 0 {
                    change_id[j / 2] / 16
                } else {
                    change_id[j / 2] % 16
                }
        },
{
    law_starts_with_digits(digits, graph[p as int].change_id);
}

/// Commits are of one change if no two are of different ones.
pub proof fn law_one_change(graph: Seq<IndexedCommit>, positions: Set<u32>, p: u32, q: u32)
    requires
        change_id_index::are_of_one_change(graph, positions),
        positions.contains(p),
        positions.contains(q),
    ensures
        graph[p as int].change_id == graph[q as int].change_id,
{
}

/// Of commits that are not of one change, two are of different ones.
pub proof fn law_two_changes(graph: Seq<IndexedCommit>, positions: Set<u32>) -> (found: (u32, u32))
    requires
        !change_id_index::are_of_one_change(graph, positions),
    ensures
        positions.contains(found.0),
        positions.contains(found.1),
        graph[found.0 as int].change_id != graph[found.1 as int].change_id,
{
    choose|p: u32, q: u32| #[trigger]
        positions.contains(p) && #[trigger] positions.contains(q) && graph[p as int].change_id
            != graph[q as int].change_id
}

/// Among the first digits of an identifier that disambiguate it is one at which that of a given
/// other change has ended or has another digit.
pub proof fn law_digit_that_tells_change(
    graph: Seq<IndexedCommit>,
    positions: Set<u32>,
    key: Seq<u8>,
    len: nat,
    p: u32,
) -> (j: int)
    requires
        change_id_index::disambiguates_change(graph, positions, key, len),
        len <= 2 * key.len(),
        positions.contains(p),
        graph[p as int].change_id != key,
    ensures
        ({
            let other = graph[p as int].change_id;
            &&& 0 <= j < len
            &&& 2 * other.len() <= j || (if j % 2 == 0 {
                key[j / 2] / 16
            } else {
                key[j / 2] % 16
            }) != (if j % 2 == 0 {
                other[j / 2] / 16
            } else {
                other[j / 2] % 16
            })
        }),
{
    lemma_place_of_difference(key, graph[p as int].change_id, len)
}

/// Where the first digits of an identifier do not disambiguate it, they are digits of it, and that
/// of another change of the set has all of them too.
pub proof fn law_change_with_same_digits(
    graph: Seq<IndexedCommit>,
    positions: Set<u32>,
    key: Seq<u8>,
    len: nat,
) -> (p: u32)
    requires
        !change_id_index::disambiguates_change(graph, positions, key, len),
    ensures
        positions.contains(p),
        graph[p as int].change_id != key,
        ({
            let other = graph[p as int].change_id;
            &&& len <= 2 * key.len()
            &&& len <= 2 * other.len()
            &&& forall|j: int|
                #![trigger key[j / 2]]
                0 <= j < len ==> (if j % 2 == 0 {
                    key[j / 2] / 16
                } else {
                    key[j / 2] % 16
                }) == (if j % 2 == 0 {
                    other[j / 2] / 16
                } else {
                    other[j / 2] % 16
                })
        }),
{
    let p = choose|p: u32| #[trigger]
        positions.contains(p) && graph[p as int].change_id != key && object_id::common_prefix_len(
            object_id::hex_digits(key),
            object_id::hex_digits(graph[p as int].change_id),
        ) >= len;
    lemma_digits_agree(key, graph[p as int].change_id, len);
    p
}

} // verus!
