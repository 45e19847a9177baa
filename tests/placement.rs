use bm25_calc::candidates::{remove_max_load, remove_min_overlap, select_candidate, Candidate};
use bm25_calc::placement::{assign_bins, top_k_sets, BM25Error, Config, Evaluation, Strategy};

fn words(ws: &[&str]) -> Vec<String> {
    ws.iter().map(|w| w.to_string()).collect()
}

fn sample() -> (Vec<String>, Vec<Vec<u32>>) {
    (words(&["a", "b", "c"]), vec![vec![1, 2, 3], vec![3, 4], vec![1, 2, 3]])
}

fn config(strategy: Strategy, evaluation: Evaluation) -> Config {
    let mut config = Config::default();
    config.d = 4;
    config.max_bins = 4;
    config.strategy = strategy;
    config.evaluation = evaluation;
    config
}

fn cand(choice: usize, size: usize, overlap: usize) -> Candidate {
    Candidate { choice, bin: choice, size, overlap }
}

#[test]
fn default_config_values() {
    let c = Config::default();
    assert_eq!((c.k, c.d, c.max_bins, c.filter_k), (10, 4, 1024, 1));
    assert_eq!((c.max_load_factor, c.min_overlap_factor, c.save_result), (1, 1, true));
    assert_eq!(c.strategy, Strategy::TwoFactor);
    assert_eq!(c.evaluation, Evaluation::TwoPass);
}

#[test]
fn single_pass_max_overlap_consolidates() {
    let (kw, res) = sample();
    let p = assign_bins(&config(Strategy::MaxOverlap, Evaluation::SinglePass), &kw, &res).unwrap();
    assert_eq!(p.bins, vec![vec![], vec![], vec![1, 2, 3, 4], vec![]]);
    assert_eq!(p.choices, vec![Some(2), Some(2), Some(2)]);
    assert_eq!(p.metadata.removed_items, 4);
    assert_eq!(p.metadata.total_items, 4);
    assert_eq!(p.metadata.average_load_per_bin, 1);
    assert_eq!(p.metadata.keywords_with_overlap, 2);
    assert_eq!((p.metadata.k, p.metadata.num_bins, p.metadata.d), (10, 4, 4));
}

#[test]
fn two_pass_two_factor_placement() {
    let (kw, res) = sample();
    let p = assign_bins(&config(Strategy::TwoFactor, Evaluation::TwoPass), &kw, &res).unwrap();
    assert_eq!(p.bins, vec![vec![], vec![], vec![1, 2, 3, 4], vec![1, 2, 3]]);
    assert_eq!(p.choices, vec![Some(2), Some(2), Some(3)]);
    assert_eq!(p.metadata.removed_items, 13);
    assert_eq!(p.metadata.total_items, 7);
    assert_eq!(p.metadata.average_load_per_bin, 1);
    assert_eq!(p.metadata.keywords_with_overlap, 3);
}

#[test]
fn single_pass_max_load_aware() {
    let (kw, res) = sample();
    let p = assign_bins(&config(Strategy::MaxLoadAware, Evaluation::SinglePass), &kw, &res).unwrap();
    assert_eq!(p.bins, vec![vec![1, 2, 3], vec![], vec![3, 4], vec![1, 2, 3]]);
    assert_eq!(p.choices, vec![Some(0), Some(2), Some(3)]);
    assert_eq!(p.metadata.removed_items, 0);
    assert_eq!(p.metadata.total_items, 8);
    assert_eq!(p.metadata.average_load_per_bin, 2);
    assert_eq!(p.metadata.keywords_with_overlap, 0);
}

#[test]
fn single_pass_two_factor() {
    let (kw, res) = sample();
    let p = assign_bins(&config(Strategy::TwoFactor, Evaluation::SinglePass), &kw, &res).unwrap();
    assert_eq!(p.bins, vec![vec![], vec![1, 2, 3], vec![], vec![3, 4, 1, 2]]);
    assert_eq!(p.choices, vec![Some(1), Some(3), Some(3)]);
    assert_eq!(p.metadata.removed_items, 1);
    assert_eq!(p.metadata.total_items, 7);
}

#[test]
fn two_pass_max_overlap() {
    let (kw, res) = sample();
    let p = assign_bins(&config(Strategy::MaxOverlap, Evaluation::TwoPass), &kw, &res).unwrap();
    assert_eq!(p.bins, vec![vec![], vec![], vec![], vec![1, 2, 3, 4]]);
    assert_eq!(p.metadata.removed_items, 17);
    assert_eq!(p.metadata.keywords_with_overlap, 3);
}

#[test]
fn runs_are_deterministic() {
    let (kw, res) = sample();
    let c = config(Strategy::TwoFactor, Evaluation::TwoPass);
    let p1 = assign_bins(&c, &kw, &res).unwrap();
    let p2 = assign_bins(&c, &kw, &res).unwrap();
    assert_eq!(p1.bins, p2.bins);
    assert_eq!(p1.choices, p2.choices);
    assert_eq!(p1.metadata, p2.metadata);
}

#[test]
fn conservation_without_removal() {
    let kw = words(&["a", "b", "c", "d"]);
    let res = vec![vec![1, 2, 3], vec![3, 4], vec![9], vec![5, 5, 6]];
    let mut c = config(Strategy::MaxOverlap, Evaluation::SinglePass);
    c.filter_k = 2;
    let p = assign_bins(&c, &kw, &res).unwrap();
    let mut placed_total = 0;
    for (i, choice) in p.choices.iter().enumerate() {
        match choice {
            Some(b) => {
                let mut set = res[i].clone();
                set.dedup();
                placed_total += set.len();
                for id in &set {
                    assert!(p.bins[*b].contains(id));
                }
            }
            None => assert!(res[i].len() < 2),
        }
    }
    assert_eq!(placed_total, 3 + 2 + 2);
    for bin in &p.bins {
        for id in bin {
            assert!(p.choices.iter().enumerate().any(|(i, c)| c.is_some_and(|b| p.bins[b].contains(id)) && res[i].contains(id)));
        }
    }
}

#[test]
fn filter_threshold_is_inclusive() {
    let kw = words(&["a", "b"]);
    let res = vec![vec![1, 2], vec![1, 2, 3]];
    let mut c = config(Strategy::TwoFactor, Evaluation::TwoPass);
    c.filter_k = 3;
    let p = assign_bins(&c, &kw, &res).unwrap();
    assert_eq!(p.choices[0], None);
    assert!(p.choices[1].is_some());
    assert_eq!(p.metadata.total_items, 3);
}

#[test]
fn identical_sets_fill_bins_completely() {
    let kw = words(&["sky", "pink", "sun", "horizon", "blush", "dip"]);
    let res = vec![vec![0, 1, 2, 3]; 6];
    let mut c = config(Strategy::TwoFactor, Evaluation::TwoPass);
    c.d = 10;
    c.min_overlap_factor = 9;
    c.max_load_factor = 0;
    c.filter_k = 4;
    let p = assign_bins(&c, &kw, &res).unwrap();
    for bin in &p.bins {
        assert!(bin.is_empty() || bin.len() == 4);
    }
}

#[test]
fn average_load_truncates() {
    let kw = words(&["a"]);
    let res = vec![(0..10).collect::<Vec<u32>>()];
    let mut c = config(Strategy::MaxOverlap, Evaluation::SinglePass);
    c.d = 1;
    let p = assign_bins(&c, &kw, &res).unwrap();
    assert_eq!(p.metadata.total_items, 10);
    assert_eq!(p.metadata.average_load_per_bin, 2);
}

#[test]
fn zero_bins_is_rejected() {
    let (kw, res) = sample();
    let mut c = config(Strategy::TwoFactor, Evaluation::TwoPass);
    c.max_bins = 0;
    assert!(matches!(assign_bins(&c, &kw, &res), Err(BM25Error::ZeroBins)));
}

#[test]
fn zero_choices_is_rejected() {
    let (kw, res) = sample();
    let mut c = config(Strategy::TwoFactor, Evaluation::TwoPass);
    c.d = 0;
    assert!(matches!(assign_bins(&c, &kw, &res), Err(BM25Error::NoChoices)));
}

#[test]
fn empty_alphabet_gives_empty_bins() {
    let p = assign_bins(&config(Strategy::TwoFactor, Evaluation::TwoPass), &vec![], &vec![]).unwrap();
    assert_eq!(p.bins, vec![Vec::<u32>::new(); 4]);
    assert_eq!(p.metadata.total_items, 0);
    assert_eq!(p.metadata.removed_items, 0);
}

#[test]
fn remove_min_overlap_drops_lowest_stably() {
    let c = vec![cand(0, 5, 2), cand(1, 1, 1), cand(2, 3, 1), cand(3, 0, 4)];
    assert_eq!(remove_min_overlap(c.clone(), 2), vec![cand(0, 5, 2), cand(3, 0, 4)]);
    assert_eq!(remove_min_overlap(c.clone(), 1), vec![cand(2, 3, 1), cand(0, 5, 2), cand(3, 0, 4)]);
    assert_eq!(
        remove_min_overlap(c.clone(), 0),
        vec![cand(1, 1, 1), cand(2, 3, 1), cand(0, 5, 2), cand(3, 0, 4)]
    );
    assert!(remove_min_overlap(c, 9).is_empty());
}

#[test]
fn remove_min_overlap_sorts_ascending() {
    let c = vec![cand(0, 0, 3), cand(1, 0, 1)];
    assert_eq!(remove_min_overlap(c, 0), vec![cand(1, 0, 1), cand(0, 0, 3)]);
}

#[test]
fn remove_max_load_drops_fullest_stably() {
    let c = vec![cand(0, 5, 2), cand(1, 1, 1), cand(2, 5, 1), cand(3, 0, 4)];
    assert_eq!(remove_max_load(c.clone(), 1), vec![cand(2, 5, 1), cand(1, 1, 1), cand(3, 0, 4)]);
    assert_eq!(remove_max_load(c.clone(), 3), vec![cand(3, 0, 4)]);
    assert_eq!(
        remove_max_load(c, 0),
        vec![cand(0, 5, 2), cand(2, 5, 1), cand(1, 1, 1), cand(3, 0, 4)]
    );
}

#[test]
fn select_candidate_prefers_first_maximal_overlap() {
    let c = vec![cand(0, 5, 2), cand(1, 1, 3), cand(2, 3, 3), cand(3, 9, 7)];
    assert_eq!(select_candidate(c.clone(), 0, 0), cand(3, 9, 7));
    assert_eq!(select_candidate(c.clone(), 1, 1), cand(1, 1, 3));
    assert_eq!(select_candidate(c, 3, 1), cand(0, 5, 2));
    let ties = vec![cand(0, 1, 4), cand(1, 9, 6), cand(2, 0, 6)];
    assert_eq!(select_candidate(ties, 0, 0), cand(1, 9, 6));
}

#[test]
fn top_k_sets_keeps_eligible_keywords_in_order() {
    let kw = words(&["a", "b", "c"]);
    let res = vec![vec![4, 4, 1], vec![2], vec![7, 8]];
    let pairs = top_k_sets(&kw, &res, 2);
    assert_eq!(pairs, vec![("a".to_string(), vec![4, 1]), ("c".to_string(), vec![7, 8])]);
}

#[test]
fn filtered_keyword_changes_nothing() {
    let kw = words(&["a", "x", "b", "c"]);
    let res = vec![vec![1, 2, 3], vec![7], vec![3, 4], vec![1, 2, 3]];
    let (kw2, res2) = sample();
    let mut c = config(Strategy::TwoFactor, Evaluation::TwoPass);
    c.filter_k = 2;
    let with = assign_bins(&c, &kw, &res).unwrap();
    let without = assign_bins(&c, &kw2, &res2).unwrap();
    assert_eq!(with.bins, without.bins);
    assert_eq!(with.metadata, without.metadata);
    assert_eq!(with.choices, vec![without.choices[0], None, without.choices[1], without.choices[2]]);
}
