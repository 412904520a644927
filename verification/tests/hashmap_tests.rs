use std::collections::HashMap;

use moshiki::arena::MemoryArena;
use moshiki::hashmap::{compute_previous_power_of_two, SharedArenaHashMap};

#[test]
fn test_hash_map() {
    let mut arena = MemoryArena::default();
    let mut map: SharedArenaHashMap<u32> = SharedArenaHashMap::default();

    map.mutate_or_create(b"abc", &mut arena, |o| {
        assert_eq!(o, None);
        3
    });
    map.mutate_or_create(b"abcd", &mut arena, |o| {
        assert_eq!(o, None);
        4
    });
    map.mutate_or_create(b"abc", &mut arena, |o| {
        assert_eq!(o, Some(3));
        5
    });

    let mut vanilla = HashMap::new();
    for (k, v) in map.iter(&arena) {
        vanilla.insert(k.to_vec(), v);
    }
    assert_eq!(vanilla.len(), 2);
}

#[test]
fn test_long_key_truncation() {
    let mut arena = MemoryArena::default();
    let mut map: SharedArenaHashMap<u32> = SharedArenaHashMap::default();

    let key1: Vec<u8> = (0..u16::MAX as usize).map(|i| i as u8).collect();
    map.mutate_or_create(&key1, &mut arena, |o| {
        assert_eq!(o, None);
        4
    });

    // Due to truncation, this is the *same* logical key.
    let key2: Vec<u8> = (0..u16::MAX as usize + 1).map(|i| i as u8).collect();
    map.mutate_or_create(&key2, &mut arena, |o| {
        assert_eq!(o, Some(4));
        3
    });

    let mut vanilla = HashMap::new();
    for (k, v) in map.iter(&arena) {
        vanilla.insert(k.to_vec(), v);
        assert_eq!(k.len(), key1.len());
        assert_eq!(k, &key1[..]);
    }
    assert_eq!(vanilla.len(), 1);
}

#[test]
fn test_empty_hashmap() {
    let arena = MemoryArena::default();
    let map: SharedArenaHashMap<u32> = SharedArenaHashMap::default();
    assert_eq!(map.get(b"abc", &arena), None);
}

#[test]
fn test_compute_previous_power_of_two() {
    assert_eq!(compute_previous_power_of_two(8), 8);
    assert_eq!(compute_previous_power_of_two(9), 8);
    assert_eq!(compute_previous_power_of_two(7), 4);
    assert_eq!(compute_previous_power_of_two(u64::MAX as usize), 1 << 63);
}

#[test]
fn test_many_terms() {
    let mut arena = MemoryArena::default();
    let mut terms: Vec<String> = (0..20_000).map(|v| v.to_string()).collect();
    let mut map: SharedArenaHashMap<u32> = SharedArenaHashMap::default();

    for t in &terms {
        map.mutate_or_create(t.as_bytes(), &mut arena, |_| 5);
    }

    let mut roundtrip: Vec<String> = map
        .iter(&arena)
        .into_iter()
        .map(|(bytes, _)| String::from_utf8(bytes).unwrap())
        .collect();
    roundtrip.sort();
    terms.sort();

    assert_eq!(roundtrip, terms);
}
