//! The BM25 side of a run: the keyword alphabet of a corpus, one top-k
//! search per keyword, and the runs built on those searches.
use crate::placement::{
    assign_bins, bins_outcome, pairs_of, top_k_pairs, top_k_sets, words_of, BM25Error, Config,
    Metadata,
};
use bm25::{DefaultTokenizer, Language, SearchEngine, SearchEngineBuilder, Tokenizer};
use vstd::prelude::*;

verus! {

/// An English BM25 search engine over a corpus, bm25's `SearchEngine<u32>`.
/// Verus cannot declare that type itself, as its parameters are bound by a
/// trait of bm25, so it is held here out of Verus's sight.
#[verifier::external_body]
pub struct SearchIndex {
    engine: SearchEngine<u32>,
}

/// The documents that a search index was built over.
pub uninterp spec fn corpus_of(index: SearchIndex) -> Seq<Seq<char>>;

/// How many documents of `corpus` bm25's scorer matches for `query`: those
/// sharing a token with it. This depends on the corpus and the query alone.
pub uninterp spec fn match_count(corpus: Seq<Seq<char>>, query: Seq<char>) -> nat;

/// The tokens that bm25's English tokenizer (normalisation, stop-word
/// removal and stemming enabled) produces for a text.
pub uninterp spec fn english_tokens(text: Seq<char>) -> Seq<Seq<char>>;

/// Relies on bm25's `DefaultTokenizer`, built for English with
/// normalisation, stop words and stemming, and its `tokenize`: the tokens of
/// `document`, a function of the text alone; an empty text has none.
#[verifier::external_body]
fn tokenize(document: &str) -> (r: Vec<String>)
    ensures
        words_of(r@) == english_tokens(document@),
        document@.len() == 0 ==> r@.len() == 0,
{
    let tokenizer = DefaultTokenizer::builder()
        .language_mode(Language::English)
        .normalization(true)
        .stopwords(true)
        .stemming(true)
        .build();
    tokenizer.tokenize(document)
}

/// Relies on bm25's `SearchEngineBuilder::with_corpus` and `build`: an
/// English BM25 search engine over `corpus`, where document `i` has id `i`.
#[verifier::external_body]
pub fn build_search_engine(corpus: Vec<String>) -> (r: SearchIndex)
    ensures
        corpus_of(r) == words_of(corpus@),
{
    SearchIndex { engine: SearchEngineBuilder::<u32>::with_corpus(Language::English, corpus).build() }
}

/// Relies on bm25's `SearchEngine::search`: the ids of the documents that
/// match `query`, best first, the first `limit` of them (all when fewer
/// match), each at most once, each the position of a document in the corpus
/// (ties in score come in no fixed order).
#[verifier::external_body]
fn search_ids(index: &SearchIndex, query: &str, limit: usize) -> (r: Vec<u32>)
    ensures
        r@.len() == if limit <= match_count(corpus_of(*index), query@) {
            limit as nat
        } else {
            match_count(corpus_of(*index), query@)
        },
        r@.no_duplicates(),
        forall|i: int| 0 <= i < r@.len() ==> (#[trigger] r@[i]) < corpus_of(*index).len(),
{
    index.engine.search(query, limit).into_iter().map(|result| result.document.id).collect()
}

/// `acc` extended by each word of `words` that it does not hold yet, in order.
pub open spec fn add_words(acc: Seq<Seq<char>>, words: Seq<Seq<char>>) -> Seq<Seq<char>>
    decreases words.len(),
{
    if words.len() == 0 {
        acc
    } else {
        let prev = add_words(acc, words.drop_last());
        if prev.contains(words.last()) {
            prev
        } else {
            prev.push(words.last())
        }
    }
}

/// The distinct tokens of the first `i` documents, in order of first
/// occurrence.
pub open spec fn alphabet_upto(docs: Seq<Seq<char>>, i: nat) -> Seq<Seq<char>>
    decreases i,
{
    if i == 0 || i > docs.len() {
        Seq::empty()
    } else {
        add_words(alphabet_upto(docs, (i - 1) as nat), english_tokens(docs[i - 1]))
    }
}

/// The alphabet of a corpus: its distinct tokens, in order of first occurrence.
pub open spec fn alphabet_of(docs: Seq<Seq<char>>) -> Seq<Seq<char>> {
    alphabet_upto(docs, docs.len())
}

/// Whether `words` holds `word`.
fn contains_word(words: &Vec<String>, word: &String) -> (r: bool)
    ensures
        r == words_of(words@).contains(word@),
{
    let mut j: usize = 0;
    while j < words.len()
        invariant
            j <= words@.len(),
            forall|i: int| 0 <= i < j ==> words@[i]@ != word@,
        decreases words@.len() - j,
    {
        if words[j] == *word {
            assert(words_of(words@)[j as int] == word@);
            return true;
        }
        j = j + 1;
    }
    assert forall|i: int| 0 <= i < words_of(words@).len() implies words_of(words@)[i] != word@ by {
        assert(words_of(words@)[i] == words@[i]@);
    }
    false
}

/// Gets the alphabet of a corpus: every distinct token of its documents, in
/// order of first occurrence.
pub fn get_alphabet(corpus: &Vec<String>) -> (r: Vec<String>)
    ensures
        words_of(r@) == alphabet_of(words_of(corpus@)),
{
    let ghost docs = words_of(corpus@);
    let mut alphabet: Vec<String> = Vec::new();
    let mut i: usize = 0;
    while i < corpus.len()
        invariant
            i <= corpus@.len(),
            docs == words_of(corpus@),
            words_of(alphabet@) == alphabet_upto(docs, i as nat),
        decreases corpus@.len() - i,
    {
        let tokens = tokenize(corpus[i].as_str());
        let ghost start = words_of(alphabet@);
        let mut t: usize = 0;
        while t < tokens.len()
            invariant
                t <= tokens@.len(),
                words_of(alphabet@) == add_words(start, words_of(tokens@).subrange(0, t as int)),
            decreases tokens@.len() - t,
        {
            let token = &tokens[t];
            assert(words_of(tokens@).subrange(0, t + 1).drop_last() =~= words_of(
                tokens@,
            ).subrange(0, t as int));
            if !contains_word(&alphabet, token) {
                let ghost before = alphabet@;
                alphabet.push(token.clone());
                assert(words_of(alphabet@) =~= words_of(before).push(token@));
            }
            t = t + 1;
        }
        assert(words_of(tokens@).subrange(0, tokens@.len() as int) =~= words_of(tokens@));
        assert(docs[i as int] == corpus@[i as int]@);
        i = i + 1;
    }
    alphabet
}

/// What a search of `index` for `query` with limit `limit` can return:
/// `min(limit, match_count)` distinct ids, each a position in the corpus.
pub open spec fn search_outcome(index: SearchIndex, query: Seq<char>, limit: nat, ids: Seq<u32>) -> bool {
    let m = match_count(corpus_of(index), query);
    &&& ids.len() == if limit <= m {
        limit
    } else {
        m
    }
    &&& ids.no_duplicates()
    &&& forall|j: int| 0 <= j < ids.len() ==> (#[trigger] ids[j]) < corpus_of(index).len()
}

/// One search per keyword: `r[i]` holds the ids that the search for
/// `keywords[i]` with limit `k` returned.
fn search_all(index: &SearchIndex, keywords: &Vec<String>, k: usize) -> (r: Vec<Vec<u32>>)
    ensures
        r.deep_view().len() == keywords@.len(),
        forall|i: int|
            0 <= i < keywords@.len() ==> search_outcome(
                *index,
                keywords@[i]@,
                k as nat,
                #[trigger] r.deep_view()[i],
            ),
{
    let mut results: Vec<Vec<u32>> = Vec::new();
    let mut i: usize = 0;
    while i < keywords.len()
        invariant
            i <= keywords@.len(),
            results@.len() == i,
            forall|j: int|
                0 <= j < i ==> search_outcome(*index, keywords@[j]@, k as nat, #[trigger] results@[j]@),
        decreases keywords@.len() - i,
    {
        let ids = search_ids(index, keywords[i].as_str(), k);
        results.push(ids);
        i = i + 1;
    }
    assert forall|i: int| 0 <= i < keywords@.len() implies search_outcome(
        *index,
        keywords@[i]@,
        k as nat,
        #[trigger] results.deep_view()[i],
    ) by {
        assert(results.deep_view()[i] =~= results@[i]@);
    }
    results
}

/// Performs a top-k search for each keyword of the alphabet and keeps the
/// keywords with at least `filter_k` results, each paired with its set of
/// result ids: the top-k-only mode, without bins.
pub fn top_k(k: usize, search_engine: &SearchIndex, alphabet: &Vec<String>, filter_k: usize) -> (r:
    Vec<(String, Vec<u32>)>)
    ensures
        exists|res: Seq<Seq<u32>>|
            {
                &&& res.len() == alphabet@.len()
                &&& forall|i: int|
                    0 <= i < res.len() ==> search_outcome(
                        *search_engine,
                        alphabet@[i]@,
                        k as nat,
                        #[trigger] res[i],
                    )
                &&& pairs_of(r@) == top_k_pairs(
                    words_of(alphabet@),
                    res,
                    filter_k as nat,
                    alphabet@.len(),
                )
            },
{
    let results = search_all(search_engine, alphabet, k);
    top_k_sets(alphabet, &results, filter_k)
}

/// Performs a top-k search for each keyword of the alphabet and places the
/// result sets into bins with d-choice hashing, as `assign_bins` does with
/// the search results; the summary and the bins come back.
pub fn top_k_bins(search_engine: &SearchIndex, alphabet: &Vec<String>, config: Config) -> (r:
    Result<(Metadata, Vec<Vec<u32>>), BM25Error>)
    ensures
        exists|res: Seq<Seq<u32>>|
            {
                &&& res.len() == alphabet@.len()
                &&& forall|i: int|
                    0 <= i < res.len() ==> search_outcome(
                        *search_engine,
                        alphabet@[i]@,
                        config.k as nat,
                        #[trigger] res[i],
                    )
                &&& bins_outcome(config, alphabet@, res, r)
            },
{
    let results = search_all(search_engine, alphabet, config.k);
    let placed = assign_bins(&config, alphabet, &results);
    let r = match placed {
        Ok(placement) => Ok((placement.metadata, placement.bins)),
        Err(e) => Err(e),
    };
    assert(bins_outcome(config, alphabet@, results.deep_view(), r));
    r
}

} // verus!
