use moshiki::termmap::IndexingTermmap;

#[test]
fn test_unique_serialization_and_iteration() {
    let mut map = IndexingTermmap::new();

    let id1 = map.mutate_or_create(b"abc", true);
    let id2 = map.mutate_or_create(b"defg", true);
    assert_eq!(id1, 0);
    assert_eq!(id2, 1);

    let collected: Vec<(Vec<u8>, u32)> = map.regular.iter_unique();
    assert_eq!(collected, vec![(b"abc".to_vec(), 0), (b"defg".to_vec(), 1)]);
}

#[test]
fn test_len_counts_all() {
    let mut map = IndexingTermmap::new();
    map.mutate_or_create(b"aaa", false); // regular
    map.mutate_or_create(b"bbb", true); // id-like

    assert_eq!(map.regular.num_terms(), 2); // 1 regular + 1 unique
}

#[test]
fn intern_is_idempotent_for_regular_terms() {
    let mut map = IndexingTermmap::new();
    let a1 = map.mutate_or_create(b"hello", false);
    let b1 = map.mutate_or_create(b"world", false);
    let a2 = map.mutate_or_create(b"hello", false);
    let a3 = map.mutate_or_create(b"hello", false);
    assert_eq!(a1, a2);
    assert_eq!(a2, a3);
    assert_ne!(a1, b1);
    assert_eq!(map.regular.num_terms(), 2);
}

#[test]
fn id_like_intern_always_allocates_increasing_ids() {
    let mut map = IndexingTermmap::new();
    let x1 = map.mutate_or_create(b"same", true);
    let x2 = map.mutate_or_create(b"same", true);
    let x3 = map.mutate_or_create(b"same", true);
    assert!(x1 < x2);
    assert!(x2 < x3);
    assert_eq!(map.regular.num_terms(), 3);
}

#[test]
fn find_term_for_term_id_round_trips() {
    let mut map = IndexingTermmap::new();
    let a = map.mutate_or_create(b"alpha", false);
    let b = map.mutate_or_create(b"beta", true);
    assert_eq!(map.find_term_for_term_id(a), b"alpha".to_vec());
    assert_eq!(map.find_term_for_term_id(b), b"beta".to_vec());
}
