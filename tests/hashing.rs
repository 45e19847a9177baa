use bm25_calc::hashing::{bin_index, get_hash};
use bm25_calc::ids::{add_ids_into, count_shared, dedup_ids};

#[test]
fn hash_matches_sha256_prefix() {
    assert_eq!(get_hash("sky", 0), 14875058386377144771);
    assert_eq!(get_hash("sky", 1), 13663278424962596641);
    assert_eq!(get_hash("pink", 3), 17718156201373851521);
    assert_eq!(get_hash("", 0), 6912158355717386040);
    assert_eq!(get_hash("apple", 12), 15028909121462808535);
}

#[test]
fn bin_index_is_hash_mod_bins() {
    assert_eq!(bin_index("sky", 0, 4), 3);
    assert_eq!(bin_index("sky", 1, 7), 1);
    assert_eq!(bin_index("pink", 3, 7), 4);
    assert_eq!(bin_index("apple", 12, 7), 5);
    for c in 0..20 {
        assert!(bin_index("horizon", c, 5) < 5);
        assert_eq!(bin_index("horizon", c, 1), 0);
    }
}

#[test]
fn dedup_keeps_first_occurrences() {
    assert_eq!(dedup_ids(&vec![3, 1, 3, 2, 1]), vec![3, 1, 2]);
    assert_eq!(dedup_ids(&vec![]), Vec::<u32>::new());
}

#[test]
fn add_ids_appends_only_new() {
    let mut bin = vec![1, 2];
    add_ids_into(&mut bin, &vec![2, 5, 1, 6]);
    assert_eq!(bin, vec![1, 2, 5, 6]);
}

#[test]
fn count_shared_counts_with_multiplicity() {
    assert_eq!(count_shared(&vec![1, 2, 2, 3, 9], &vec![2, 9]), 3);
    assert_eq!(count_shared(&vec![], &vec![2]), 0);
}
