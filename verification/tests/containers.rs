//! The ordered map, chunks and number encodings that the rest is built on.

use sui_kvstore::chunks::into_chunks;
use sui_kvstore::codec::from_be_bytes;
use sui_kvstore::codec::reverse_bits;
use sui_kvstore::codec::to_be_bytes;
use sui_kvstore::row_map::RowMap;

fn map(keys: &[&[u8]]) -> RowMap<usize> {
    let mut map = RowMap::new();
    for (i, key) in keys.iter().enumerate() {
        map.insert(key.to_vec(), i);
    }
    map
}

fn keys_of(map: &RowMap<usize>) -> Vec<Vec<u8>> {
    (0..map.len()).map(|i| map.key_at(i).clone()).collect()
}

#[test]
fn row_maps_are_ordered_by_key() {
    let map = map(&[b"b", b"", b"ab", b"a", b"\xFF", b"b"]);
    let expected: Vec<Vec<u8>> = vec![b"".to_vec(), b"a".to_vec(), b"ab".to_vec(), b"b".to_vec(), b"\xFF".to_vec()];
    assert_eq!(keys_of(&map), expected);
    // The later of two values stands.
    assert_eq!(map.get(b"b"), Some(&5));
    assert_eq!(map.get(b"a"), Some(&3));
    assert_eq!(map.get(b"c"), None);
    assert_eq!(*map.value_at(0), 1);
}

#[test]
fn row_maps_change_in_place() {
    let mut map = map(&[b"a", b"b", b"c"]);
    *map.get_mut(b"b").unwrap() = 40;
    assert!(map.get_mut(b"x").is_none());
    *map.value_at_mut(2) = 50;
    assert_eq!((map.get(b"b"), map.get(b"c")), (Some(&40), Some(&50)));
    assert_eq!(map.remove(b"a"), Some(0));
    assert_eq!(map.remove(b"a"), None);
    assert!(!map.contains_key(b"a"));
    assert_eq!(map.len(), 2);
    let dropped = map.retain(&vec![false, true]);
    assert_eq!(keys_of(&map), vec![b"c".to_vec()]);
    assert_eq!(keys_of(&dropped), vec![b"b".to_vec()]);
    assert_eq!(dropped.get(b"b"), Some(&40));
    let dropped = map.retain(&vec![false]);
    assert!(map.is_empty());
    assert_eq!(dropped.get(b"c"), Some(&50));
}

#[test]
fn row_maps_take_others_over() {
    let mut left = map(&[b"b", b"d"]);
    let right = map(&[b"c", b"b", b"a"]);
    left.append(right);
    let expected: Vec<Vec<u8>> = vec![b"a".to_vec(), b"b".to_vec(), b"c".to_vec(), b"d".to_vec()];
    assert_eq!(keys_of(&left), expected);
    // Where both have a key, the other's value stands.
    assert_eq!((left.get(b"a"), left.get(b"b")), (Some(&2), Some(&1)));
    assert_eq!((left.get(b"c"), left.get(b"d")), (Some(&0), Some(&1)));
}

#[test]
fn chunks_partition_a_list() {
    assert_eq!(into_chunks(vec![1, 2, 3, 4, 5], 2), vec![vec![1, 2], vec![3, 4], vec![5]]);
    assert_eq!(into_chunks(vec![1, 2, 3, 4], 2), vec![vec![1, 2], vec![3, 4]]);
    assert_eq!(into_chunks(vec![1], 5), vec![vec![1]]);
    assert!(into_chunks(Vec::<u8>::new(), 5).is_empty());
}

#[test]
fn numbers_become_bytes_and_back() {
    for x in [0u64, 1, 0x0102_0304_0506_0708, u64::MAX] {
        assert_eq!(to_be_bytes(x), x.to_be_bytes().to_vec());
        assert_eq!(from_be_bytes(&to_be_bytes(x)), Some(x));
        assert_eq!(reverse_bits(x), x.reverse_bits());
        assert_eq!(reverse_bits(reverse_bits(x)), x);
    }
    assert_eq!(from_be_bytes(&[0; 7]), None);
    assert_eq!(from_be_bytes(&[0; 9]), None);
}
