//! Lookups by a prefix of an identifier.

use revset_engine::hex_prefix::{HexPrefix, PrefixResolution};
use revset_engine::id_index::IdIndex;
use revset_engine::object_id::{ChangeId, CommitId, ObjectId};

fn change_ids(hexes: &[&str]) -> Vec<(ChangeId, usize)> {
    hexes
        .iter()
        .enumerate()
        .map(|(i, hex)| (ChangeId::from_hex(hex), i))
        .collect()
}

fn prefix(hex: &str) -> HexPrefix {
    HexPrefix::new(hex).unwrap()
}

#[test]
fn test_id_index_resolve_prefix() {
    fn sorted(resolution: PrefixResolution<Vec<i32>>) -> PrefixResolution<Vec<i32>> {
        match resolution {
            PrefixResolution::SingleMatch(mut xs) => {
                xs.sort(); // order of values might not be preserved by IdIndex
                PrefixResolution::SingleMatch(xs)
            }
            _ => resolution,
        }
    }
    let id_index = IdIndex::from_vec(vec![
        (ChangeId::from_hex("0000"), 0),
        (ChangeId::from_hex("0099"), 1),
        (ChangeId::from_hex("0099"), 2),
        (ChangeId::from_hex("0aaa"), 3),
        (ChangeId::from_hex("0aab"), 4),
    ]);
    assert_eq!(
        id_index.resolve_prefix_with(&HexPrefix::new("0").unwrap(), |&v| v),
        PrefixResolution::AmbiguousMatch,
    );
    assert_eq!(
        id_index.resolve_prefix_with(&HexPrefix::new("00").unwrap(), |&v| v),
        PrefixResolution::AmbiguousMatch,
    );
    assert_eq!(
        id_index.resolve_prefix_with(&HexPrefix::new("000").unwrap(), |&v| v),
        PrefixResolution::SingleMatch(vec![0]),
    );
    assert_eq!(
        id_index.resolve_prefix_with(&HexPrefix::new("0001").unwrap(), |&v| v),
        PrefixResolution::NoMatch,
    );
    assert_eq!(
        sorted(id_index.resolve_prefix_with(&HexPrefix::new("009").unwrap(), |&v| v)),
        PrefixResolution::SingleMatch(vec![1, 2]),
    );
    assert_eq!(
        id_index.resolve_prefix_with(&HexPrefix::new("0aa").unwrap(), |&v| v),
        PrefixResolution::AmbiguousMatch,
    );
    assert_eq!(
        id_index.resolve_prefix_with(&HexPrefix::new("0aab").unwrap(), |&v| v),
        PrefixResolution::SingleMatch(vec![4]),
    );
    assert_eq!(
        id_index.resolve_prefix_with(&HexPrefix::new("f").unwrap(), |&v| v),
        PrefixResolution::NoMatch,
    );
}

#[test]
fn test_id_index_shortest_unique_prefix_len() {
    // No crash if empty
    let id_index = IdIndex::from_vec(vec![] as Vec<(ChangeId, ())>);
    assert_eq!(
        id_index.shortest_unique_prefix_len(&ChangeId::from_hex("00")),
        0
    );

    let id_index = IdIndex::from_vec(vec![
        (ChangeId::from_hex("ab"), ()),
        (ChangeId::from_hex("acd0"), ()),
        (ChangeId::from_hex("acd0"), ()), // duplicated key is allowed
    ]);
    assert_eq!(
        id_index.shortest_unique_prefix_len(&ChangeId::from_hex("acd0")),
        2
    );
    assert_eq!(
        id_index.shortest_unique_prefix_len(&ChangeId::from_hex("ac")),
        3
    );

    let id_index = IdIndex::from_vec(vec![
        (ChangeId::from_hex("ab"), ()),
        (ChangeId::from_hex("acd0"), ()),
        (ChangeId::from_hex("acf0"), ()),
        (ChangeId::from_hex("a0"), ()),
        (ChangeId::from_hex("ba"), ()),
    ]);

    assert_eq!(
        id_index.shortest_unique_prefix_len(&ChangeId::from_hex("a0")),
        2
    );
    assert_eq!(
        id_index.shortest_unique_prefix_len(&ChangeId::from_hex("ba")),
        1
    );
    assert_eq!(
        id_index.shortest_unique_prefix_len(&ChangeId::from_hex("ab")),
        2
    );
    assert_eq!(
        id_index.shortest_unique_prefix_len(&ChangeId::from_hex("acd0")),
        3
    );
    // If it were there, the length would be 1.
    assert_eq!(
        id_index.shortest_unique_prefix_len(&ChangeId::from_hex("c0")),
        1
    );
}

#[test]
fn prefixes_are_hexadecimal() {
    assert!(HexPrefix::new("").is_some());
    assert!(HexPrefix::new("09afAF").is_some());
    assert!(HexPrefix::new("0g").is_none());
    assert!(HexPrefix::new("0 ").is_none());
    assert!(HexPrefix::new("\u{e9}").is_none());
}

#[test]
fn prefix_starts_at_least_bytes() {
    assert_eq!(prefix("").min_prefix_bytes(), &[] as &[u8]);
    assert_eq!(prefix("1").min_prefix_bytes(), &[0x10]);
    assert_eq!(prefix("1f").min_prefix_bytes(), &[0x1f]);
    assert_eq!(prefix("1F3").min_prefix_bytes(), &[0x1f, 0x30]);
}

#[test]
fn prefix_matches_by_digits() {
    let id = CommitId::from_hex("1234");
    for hex in ["", "1", "12", "123", "1234"] {
        assert!(prefix(hex).matches(&id), "{hex}");
    }
    for hex in ["2", "13", "124", "1235", "12340", "123400"] {
        assert!(!prefix(hex).matches(&id), "{hex}");
    }
}

#[test]
fn range_is_sorted_by_key() {
    let id_index = IdIndex::from_vec(change_ids(&["b000", "a1", "a0ff", "a0", "c0"]));
    let found: Vec<(Vec<u8>, usize)> = id_index
        .resolve_prefix_range(&prefix("a"))
        .into_iter()
        .map(|(key, value)| (key.as_bytes().to_vec(), *value))
        .collect();
    assert_eq!(
        found,
        vec![
            (vec![0xa0], 3),
            (vec![0xa0, 0xff], 2),
            (vec![0xa1], 1),
        ]
    );
    assert_eq!(id_index.resolve_prefix_range(&prefix("")).len(), 5);
    assert!(id_index.resolve_prefix_range(&prefix("d")).is_empty());
}

#[test]
fn order_of_entries_does_not_matter() {
    let hexes = ["0aab", "0099", "0000", "0aaa", "0098"];
    let forward = IdIndex::from_vec(change_ids(&hexes));
    let mut reversed = change_ids(&hexes);
    reversed.reverse();
    let reversed = IdIndex::from_vec(reversed);
    for hex in ["0", "00", "009", "0099", "0aa", "0aaa", "1"] {
        assert_eq!(
            forward.resolve_prefix_with(&prefix(hex), |&v| v),
            reversed.resolve_prefix_with(&prefix(hex), |&v| v),
        );
    }
    for hex in hexes {
        let key = ChangeId::from_hex(hex);
        assert_eq!(
            forward.shortest_unique_prefix_len(&key),
            reversed.shortest_unique_prefix_len(&key),
        );
    }
}

#[test]
fn shortest_prefix_resolves_and_shorter_ones_do_not() {
    let hexes = ["0000", "0099", "0aaa", "0aab", "f000"];
    let id_index = IdIndex::from_vec(change_ids(&hexes));
    for (i, hex) in hexes.iter().enumerate() {
        let len = id_index.shortest_unique_prefix_len(&ChangeId::from_hex(hex));
        assert_eq!(
            id_index.resolve_prefix_with(&prefix(&hex[..len]), |&v| v),
            PrefixResolution::SingleMatch(vec![i]),
        );
        for shorter in 0..len {
            assert_eq!(
                id_index.resolve_prefix_with(&prefix(&hex[..shorter]), |&v| v),
                PrefixResolution::AmbiguousMatch,
            );
        }
    }
}

#[test]
fn key_that_starts_another_needs_one_more_than_its_digits() {
    let id_index = IdIndex::from_vec(change_ids(&["abcd", "abcdef", "12"]));
    assert_eq!(
        id_index.shortest_unique_prefix_len(&ChangeId::from_hex("abcd")),
        5
    );
    assert_eq!(
        id_index.shortest_unique_prefix_len(&ChangeId::from_hex("abcdef")),
        5
    );
    // Also where the key itself is not there.
    assert_eq!(
        id_index.shortest_unique_prefix_len(&ChangeId::from_hex("ab")),
        3
    );
}

#[test]
fn both_neighbors_count() {
    let id_index = IdIndex::from_vec(change_ids(&["5550", "5600"]));
    // The left neighbor is the nearer one.
    assert_eq!(
        id_index.shortest_unique_prefix_len(&ChangeId::from_hex("5551")),
        4
    );
    // The right neighbor is the nearer one.
    assert_eq!(
        id_index.shortest_unique_prefix_len(&ChangeId::from_hex("55f0")),
        3
    );
    assert_eq!(
        id_index.shortest_unique_prefix_len(&ChangeId::from_hex("5601")),
        4
    );
}

#[test]
fn first_value_of_a_key() {
    let id_index = IdIndex::from_vec(change_ids(&["0b", "0a", "0c"]));
    assert_eq!(id_index.first_value(&ChangeId::from_hex("0a")), Some(&1));
    assert_eq!(id_index.first_value(&ChangeId::from_hex("0c")), Some(&2));
    assert_eq!(id_index.first_value(&ChangeId::from_hex("0d")), None);
}

#[test]
fn only_values_of_the_first_key_are_mapped() {
    let id_index = IdIndex::from_vec(change_ids(&["a1", "a0", "a2"]));
    let map = |value: &usize| match value {
        1 => 'b',
        other => panic!("{other}"),
    };
    assert_eq!(
        id_index.resolve_prefix_with(&prefix("a"), map),
        PrefixResolution::AmbiguousMatch
    );
    assert_eq!(
        id_index.resolve_prefix_with(&prefix("a0"), map),
        PrefixResolution::SingleMatch(vec!['b'])
    );
    assert_eq!(
        id_index.resolve_prefix_with(&prefix("b"), map),
        PrefixResolution::NoMatch
    );
}
