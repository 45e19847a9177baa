use bm25_calc::dataloader::field_texts;
use bm25_calc::placement::{BM25Error, Config};
use bm25_calc::search::{build_search_engine, get_alphabet, top_k, top_k_bins};

const CORPUS: [&str; 4] = [
    "The sky blushed pink as the sun dipped below the horizon.",
    "Apples, oranges, papayas, and more papayas.",
    "She found a forgotten letter tucked inside an old book.",
    "A single drop of rain fell, followed by a thousand more.",
];

fn corpus() -> Vec<String> {
    CORPUS.iter().map(|&s| s.to_string()).collect()
}

#[test]
fn get_top_k() {
    let search = build_search_engine(corpus());
    let alphabet = get_alphabet(&corpus());
    let top = top_k(10, &search, &alphabet, 4);
    assert!(top.is_empty());
    let top = top_k(10, &search, &alphabet, 1);
    assert!(!top.is_empty());
    for (_, ids) in &top {
        assert!(!ids.is_empty() && ids.len() <= 10);
    }
}

#[test]
fn alphabet_is_tokenized_and_distinct() {
    let alphabet = get_alphabet(&corpus());
    assert!(alphabet.contains(&"sky".to_string()));
    assert!(alphabet.contains(&"papaya".to_string()));
    assert!(!alphabet.contains(&"The".to_string()));
    assert!(!alphabet.contains(&"the".to_string()));
    for (i, a) in alphabet.iter().enumerate() {
        assert!(!alphabet[i + 1..].contains(a));
    }
    assert!(get_alphabet(&vec![String::new()]).is_empty());
}

#[test]
fn test_overlap() {
    let corpus_str: [&str; 4] = [
        "The sky blushed pink as the sun dipped below the horizon.",
        "The sky blushed pink as the sun dipped below the horizon.",
        "The sky blushed pink as the sun dipped below the horizon.",
        "The sky blushed pink as the sun dipped below the horizon.",
    ];
    let corpus: Vec<String> = corpus_str.iter().map(|&s| s.to_string()).collect();
    let d = 10;
    let k = 4;
    let max_bins = 4;
    let alphabet = get_alphabet(&corpus);
    let search = build_search_engine(corpus);
    let mut config = Config::default();
    config.k = k;
    config.d = d;
    config.max_bins = max_bins;
    config.min_overlap_factor = 9;
    let top_k_bins = top_k_bins(&search, &alphabet, config).unwrap();
    (0..max_bins).for_each(|i| {
        let length = top_k_bins.1[i].len();
        assert!(length == 0 || length == 4);
    });
}

#[test]
fn identical_corpus_end_to_end() {
    let corpus: Vec<String> = vec![CORPUS[0].to_string(); 4];
    let alphabet = get_alphabet(&corpus);
    let search = build_search_engine(corpus);
    let mut config = Config::default();
    config.k = 4;
    config.d = 10;
    config.max_bins = 4;
    config.filter_k = 4;
    config.min_overlap_factor = 9;
    config.max_load_factor = 0;
    let (meta, bins) = top_k_bins(&search, &alphabet, config).unwrap();
    assert!(bins.iter().any(|b| !b.is_empty()));
    for bin in &bins {
        assert!(bin.is_empty() || bin.len() == 4);
    }
    assert_eq!(meta.num_bins, 4);
    assert_eq!(meta.total_items, bins.iter().map(|b| b.len()).sum::<usize>());
}

#[test]
fn top_k_bins_rejects_zero_bins() {
    let search = build_search_engine(corpus());
    let alphabet = get_alphabet(&corpus());
    let mut config = Config::default();
    config.max_bins = 0;
    assert!(matches!(top_k_bins(&search, &alphabet, config), Err(BM25Error::ZeroBins)));
}

#[test]
fn field_texts_reads_each_line() {
    let lines = vec![r#"{"text": "a b", "id": 1}"#.to_string(), r#"{"id": 2}"#.to_string()];
    let texts = field_texts(&lines, "text").unwrap();
    assert_eq!(texts, vec!["\"a b\"".to_string(), "null".to_string()]);
}

#[test]
fn field_texts_names_first_invalid_line() {
    let lines = vec![r#"{"text": "x"}"#.to_string(), "{oops".to_string(), "".to_string()];
    assert!(matches!(field_texts(&lines, "text"), Err(BM25Error::InvalidJson { line: 1 })));
}
