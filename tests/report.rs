use bm25_calc::report::{emd_terms, histogram_counts, print_distribution_comparison};

#[test]
fn emd_terms_on_small_distributions() {
    let a = vec![vec![1, 2, 3], vec![4]];
    let b = vec![vec![1, 2], vec![3, 4], vec![]];
    assert_eq!(emd_terms(&a, &b), (3, 4));
    assert_eq!(emd_terms(&a, &a), (0, 4));
}

#[test]
fn comparison_reports_totals_and_emd() {
    let a = vec![vec![1, 2, 3], vec![4]];
    let b = vec![vec![1, 2], vec![3, 4], vec![]];
    let c = print_distribution_comparison(&a, &b);
    assert_eq!((c.total_items1, c.num_bins1), (4, 2));
    assert_eq!((c.total_items2, c.num_bins2), (4, 3));
    assert_eq!((c.emd_work, c.emd_scale), (3, 4));
}

#[test]
fn histogram_groups_sorted_and_unsorted() {
    let bins = vec![vec![1], vec![1, 2, 3, 4, 5], vec![1, 2], vec![], vec![1, 2, 3]];
    assert_eq!(histogram_counts(&bins, true, 2), vec![10, 1]);
    assert_eq!(histogram_counts(&bins, false, 2), vec![8, 3]);
    assert_eq!(histogram_counts(&bins, false, 5), vec![1, 5, 2, 0, 3]);
    assert_eq!(histogram_counts(&bins, true, 30), vec![5, 3, 2, 1, 0]);
    assert_eq!(histogram_counts(&bins, true, 1), vec![11]);
}

#[test]
fn histogram_zero_granularity_is_one_group() {
    let bins = vec![vec![1], vec![1, 2], vec![]];
    assert_eq!(histogram_counts(&bins, false, 0), vec![3]);
}
