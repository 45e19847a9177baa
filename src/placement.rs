//! The placement engine: every eligible keyword's identifier set goes into
//! one of its candidate bins, and the run is summarised in a `Metadata`.
use crate::candidates::{
    candidates_of, get_bins, holds_own_copies, lemma_select_member, select_candidate, select_spec,
    Candidate,
};
use crate::hashing::{bin_index, bin_of};
use crate::ids::{
    add_ids, add_ids_into, dedup_ids, id_set, lemma_shared_all, lemma_shared_append, shared,
};
use vstd::prelude::*;

verus! {

/// How a keyword's bin is chosen among its candidates.
#[derive(Clone, Copy, Debug, PartialEq, Eq, Structural)]
pub enum Strategy {
    /// Maximal overlap over all `d` candidates, nothing dropped.
    MaxOverlap,
    /// Drop the `max_load_factor` fullest candidates, then maximal overlap.
    MaxLoadAware,
    /// Drop the `min_overlap_factor` lowest overlaps, then the
    /// `max_load_factor` fullest candidates, then maximal overlap.
    TwoFactor,
}

/// What overlap and load are measured against.
#[derive(Clone, Copy, Debug, PartialEq, Eq, Structural)]
pub enum Evaluation {
    /// The bins as filled so far: later keywords see earlier placements.
    SinglePass,
    /// A table of potential contents built beforehand from every eligible
    /// keyword and every one of its choices; a keyword's own copy in the
    /// table is not counted as overlap.
    TwoPass,
}

/// The parameters of one placement run.
#[derive(Clone, Copy, Debug)]
pub struct Config {
    /// Results requested per keyword.
    pub k: usize,
    /// Hash choices per keyword.
    pub d: usize,
    /// Number of bins.
    pub max_bins: usize,
    /// Minimum number of results for a keyword to be placed.
    pub filter_k: usize,
    /// How many of the fullest candidates are dropped.
    pub max_load_factor: usize,
    /// How many of the lowest-overlap candidates are dropped.
    pub min_overlap_factor: usize,
    /// Whether the caller should persist the bins.
    pub save_result: bool,
    pub strategy: Strategy,
    pub evaluation: Evaluation,
}

impl Default for Config {
    fn default() -> (r: Config)
        ensures
            r.k == 10,
            r.d == 4,
            r.max_bins == 1024,
            r.filter_k == 1,
            r.max_load_factor == 1,
            r.min_overlap_factor == 1,
            r.save_result,
            r.strategy == Strategy::TwoFactor,
            r.evaluation == Evaluation::TwoPass,
    {
        Config {
            k: 10,
            d: 4,
            max_bins: 1024,
            filter_k: 1,
            max_load_factor: 1,
            min_overlap_factor: 1,
            save_result: true,
            strategy: Strategy::TwoFactor,
            evaluation: Evaluation::TwoPass,
        }
    }
}

/// Summary of a placement run.
#[derive(Clone, Copy, Debug, PartialEq, Eq, Structural)]
pub struct Metadata {
    /// Value of k used in top-k.
    pub k: usize,
    /// The number of bins.
    pub num_bins: usize,
    /// The number of choices for d-choice hashing.
    pub d: usize,
    /// The sum of the chosen candidates' overlaps: duplicates avoided.
    pub removed_items: usize,
    /// The total number of identifiers over all bins.
    pub total_items: usize,
    /// `total_items / num_bins`, truncated.
    pub average_load_per_bin: usize,
    /// The number of keywords whose chosen bin had a nonzero overlap.
    pub keywords_with_overlap: usize,
}

/// Why a placement run was refused.
#[derive(Clone, Copy, Debug, PartialEq, Eq, Structural)]
pub enum BM25Error {
    /// `max_bins` is zero.
    ZeroBins,
    /// `d` is zero: no keyword has a candidate bin.
    NoChoices,
    /// A counter of the summary does not fit in `usize`.
    Overflow,
    /// Line `line` of a JSON-lines corpus is not valid JSON.
    InvalidJson { line: usize },
}

/// The outcome of a placement run.
pub struct Placement {
    pub metadata: Metadata,
    /// The identifiers held by each bin.
    pub bins: Vec<Vec<u32>>,
    /// For each keyword, the bin it was placed in, or `None` when it had
    /// fewer than `filter_k` results.
    pub choices: Vec<Option<usize>>,
}

/// The state of a run after some keywords, in mathematical terms.
pub struct RunState {
    pub bins: Seq<Seq<u32>>,
    pub removed: nat,
    pub with_overlap: nat,
    pub choices: Seq<Option<usize>>,
}

/// How many lowest-overlap and how many fullest candidates are dropped.
pub open spec fn drop_counts(cfg: Config) -> (nat, nat) {
    match cfg.strategy {
        Strategy::MaxOverlap => (0, 0),
        Strategy::MaxLoadAware => (0, cfg.max_load_factor as nat),
        Strategy::TwoFactor => (cfg.min_overlap_factor as nat, cfg.max_load_factor as nat),
    }
}

/// A keyword takes part when its search returned at least `filter_k` results.
pub open spec fn is_kept(cfg: Config, result: Seq<u32>) -> bool {
    result.len() >= cfg.filter_k
}

pub open spec fn empty_bins(n: nat) -> Seq<Seq<u32>> {
    Seq::new(n, |b: int| Seq::<u32>::empty())
}

/// `table` with `ids` appended to the bin of each of the choices `0..c`.
pub open spec fn spread(table: Seq<Seq<u32>>, word: Seq<char>, ids: Seq<u32>, c: nat) -> Seq<
    Seq<u32>,
>
    decreases c,
{
    if c == 0 {
        table
    } else {
        let t = spread(table, word, ids, (c - 1) as nat);
        let b = bin_of(word, (c - 1) as nat, t.len()) as int;
        t.update(b, t[b] + ids)
    }
}

/// The potential contents after the first `i` keywords.
pub open spec fn potential_upto(
    cfg: Config,
    words: Seq<Seq<char>>,
    results: Seq<Seq<u32>>,
    i: nat,
) -> Seq<Seq<u32>>
    decreases i,
{
    if i == 0 {
        empty_bins(cfg.max_bins as nat)
    } else {
        let t = potential_upto(cfg, words, results, (i - 1) as nat);
        if is_kept(cfg, results[i - 1]) {
            spread(t, words[i - 1], id_set(results[i - 1]), cfg.d as nat)
        } else {
            t
        }
    }
}

/// The candidate chosen for keyword `i` when the bins hold `bins`.
pub open spec fn chosen(
    cfg: Config,
    words: Seq<Seq<char>>,
    results: Seq<Seq<u32>>,
    bins: Seq<Seq<u32>>,
    i: int,
) -> Candidate {
    let two_pass = cfg.evaluation == Evaluation::TwoPass;
    let table = if two_pass {
        potential_upto(cfg, words, results, words.len())
    } else {
        bins
    };
    let ids = id_set(results[i]);
    select_spec(
        candidates_of(words[i], cfg.d as nat, table, ids, two_pass),
        drop_counts(cfg).0,
        drop_counts(cfg).1,
    )
}

/// The run after the first `i` keywords.
pub open spec fn run_upto(
    cfg: Config,
    words: Seq<Seq<char>>,
    results: Seq<Seq<u32>>,
    i: nat,
) -> RunState
    decreases i,
{
    if i == 0 {
        RunState {
            bins: empty_bins(cfg.max_bins as nat),
            removed: 0,
            with_overlap: 0,
            choices: Seq::empty(),
        }
    } else {
        let st = run_upto(cfg, words, results, (i - 1) as nat);
        if !is_kept(cfg, results[i - 1]) {
            RunState { choices: st.choices.push(None), ..st }
        } else {
            let c = chosen(cfg, words, results, st.bins, i - 1);
            let b = c.bin as int;
            RunState {
                bins: st.bins.update(b, add_ids(st.bins[b], id_set(results[i - 1]))),
                removed: st.removed + c.overlap as nat,
                with_overlap: st.with_overlap + if c.overlap > 0 {
                    1nat
                } else {
                    0nat
                },
                choices: st.choices.push(Some(c.bin)),
            }
        }
    }
}

/// What a placement run returns: `Ok` with the run's bins, choices and summary
/// when the configuration is valid and every counter fits in `usize`;
/// otherwise the error that names the first failed condition.
pub open spec fn placement_outcome(
    cfg: Config,
    keywords: Seq<String>,
    results: Seq<Seq<u32>>,
    r: Result<Placement, BM25Error>,
) -> bool {
    let st = run(cfg, words_of(keywords), results);
    match r {
        Ok(p) => {
            &&& cfg.max_bins > 0
            &&& cfg.d > 0
            &&& fits(st)
            &&& p.bins.deep_view() == st.bins
            &&& p.choices@ == st.choices
            &&& p.metadata == metadata_of(cfg, st)
        },
        Err(e) => {
            &&& e == if cfg.max_bins == 0 {
                BM25Error::ZeroBins
            } else if cfg.d == 0 {
                BM25Error::NoChoices
            } else {
                BM25Error::Overflow
            }
            &&& cfg.max_bins > 0 && cfg.d > 0 ==> !fits(st)
        },
    }
}

/// `placement_outcome` for a run reported as its summary and its bins.
pub open spec fn bins_outcome(
    cfg: Config,
    keywords: Seq<String>,
    results: Seq<Seq<u32>>,
    r: Result<(Metadata, Vec<Vec<u32>>), BM25Error>,
) -> bool {
    let st = run(cfg, words_of(keywords), results);
    match r {
        Ok(p) => {
            &&& cfg.max_bins > 0
            &&& cfg.d > 0
            &&& fits(st)
            &&& p.1.deep_view() == st.bins
            &&& p.0 == metadata_of(cfg, st)
        },
        Err(e) => {
            &&& e == if cfg.max_bins == 0 {
                BM25Error::ZeroBins
            } else if cfg.d == 0 {
                BM25Error::NoChoices
            } else {
                BM25Error::Overflow
            }
            &&& cfg.max_bins > 0 && cfg.d > 0 ==> !fits(st)
        },
    }
}

/// The keyword/identifier-set pairs of the top-k-only mode for the first `i`
/// keywords: each keyword with at least `filter_k` results, paired with its
/// identifier set, in keyword order.
pub open spec fn top_k_pairs(
    words: Seq<Seq<char>>,
    results: Seq<Seq<u32>>,
    filter_k: nat,
    i: nat,
) -> Seq<(Seq<char>, Seq<u32>)>
    decreases i,
{
    if i == 0 || i > words.len() {
        Seq::empty()
    } else {
        let prev = top_k_pairs(words, results, filter_k, (i - 1) as nat);
        if results[i - 1].len() >= filter_k {
            prev.push((words[i - 1], id_set(results[i - 1])))
        } else {
            prev
        }
    }
}

pub open spec fn pairs_of(v: Seq<(String, Vec<u32>)>) -> Seq<(Seq<char>, Seq<u32>)> {
    v.map_values(|p: (String, Vec<u32>)| (p.0@, p.1@))
}

/// The whole run over all keywords.
pub open spec fn run(cfg: Config, words: Seq<Seq<char>>, results: Seq<Seq<u32>>) -> RunState {
    run_upto(cfg, words, results, words.len())
}

/// The total number of identifiers over all bins.
pub open spec fn total_len(bins: Seq<Seq<u32>>) -> nat
    decreases bins.len(),
{
    if bins.len() == 0 {
        0
    } else {
        total_len(bins.drop_last()) + bins.last().len()
    }
}

/// The keywords' texts.
pub open spec fn words_of(keywords: Seq<String>) -> Seq<Seq<char>> {
    keywords.map_values(|s: String| s@)
}

/// Whether every counter of the run's summary fits in `usize`.
pub open spec fn fits(st: RunState) -> bool {
    st.removed <= usize::MAX && total_len(st.bins) <= usize::MAX
}

/// The summary of a finished run.
pub open spec fn metadata_of(cfg: Config, st: RunState) -> Metadata {
    Metadata {
        k: cfg.k,
        num_bins: cfg.max_bins,
        d: cfg.d,
        removed_items: st.removed as usize,
        total_items: total_len(st.bins) as usize,
        average_load_per_bin: (total_len(st.bins) / cfg.max_bins as nat) as usize,
        keywords_with_overlap: st.with_overlap as usize,
    }
}

pub proof fn lemma_spread_len(table: Seq<Seq<u32>>, word: Seq<char>, ids: Seq<u32>, c: nat)
    requires
        table.len() > 0,
    ensures
        spread(table, word, ids, c).len() == table.len(),
    decreases c,
{
    if c > 0 {
        lemma_spread_len(table, word, ids, (c - 1) as nat);
    }
}

pub proof fn lemma_potential_len(
    cfg: Config,
    words: Seq<Seq<char>>,
    results: Seq<Seq<u32>>,
    i: nat,
)
    requires
        cfg.max_bins > 0,
    ensures
        potential_upto(cfg, words, results, i).len() == cfg.max_bins,
    decreases i,
{
    if i > 0 {
        lemma_potential_len(cfg, words, results, (i - 1) as nat);
        let t = potential_upto(cfg, words, results, (i - 1) as nat);
        if is_kept(cfg, results[i - 1]) {
            lemma_spread_len(t, words[i - 1], id_set(results[i - 1]), cfg.d as nat);
        }
    }
}

pub proof fn lemma_removed_monotone(
    cfg: Config,
    words: Seq<Seq<char>>,
    results: Seq<Seq<u32>>,
    i: nat,
    j: nat,
)
    requires
        i <= j,
    ensures
        run_upto(cfg, words, results, i).removed <= run_upto(cfg, words, results, j).removed,
    decreases j,
{
    if i < j {
        lemma_removed_monotone(cfg, words, results, i, (j - 1) as nat);
    }
}

pub proof fn lemma_total_len_prefix(bins: Seq<Seq<u32>>, i: int, j: int)
    requires
        0 <= i <= j <= bins.len(),
    ensures
        total_len(bins.subrange(0, i)) <= total_len(bins.subrange(0, j)),
    decreases j,
{
    if i < j {
        assert(bins.subrange(0, j).drop_last() =~= bins.subrange(0, j - 1));
        lemma_total_len_prefix(bins, i, j - 1);
    }
}

/// Appending to a bin keeps every copy that the table held.
proof fn lemma_append_keeps(
    t: Seq<Seq<u32>>,
    b: int,
    more: Seq<u32>,
    word: Seq<char>,
    d: nat,
    ids: Seq<u32>,
)
    requires
        holds_own_copies(t, word, d, ids),
        0 <= b < t.len(),
    ensures
        holds_own_copies(t.update(b, t[b] + more), word, d, ids),
{
    let u = t.update(b, t[b] + more);
    assert forall|c: nat| c < d implies shared(
        u[#[trigger] bin_of(word, c, u.len()) as int],
        ids,
    ) >= ids.len() by {
        assert(bin_of(word, c, t.len()) == bin_of(word, c, u.len()));
        if bin_of(word, c, u.len()) == b {
            lemma_shared_append(t[b], more, ids);
        }
    }
}

proof fn lemma_spread_keeps(
    t: Seq<Seq<u32>>,
    other: Seq<char>,
    other_ids: Seq<u32>,
    c: nat,
    word: Seq<char>,
    d: nat,
    ids: Seq<u32>,
)
    requires
        holds_own_copies(t, word, d, ids),
        t.len() > 0,
    ensures
        holds_own_copies(spread(t, other, other_ids, c), word, d, ids),
    decreases c,
{
    if c > 0 {
        let p = (c - 1) as nat;
        lemma_spread_keeps(t, other, other_ids, p, word, d, ids);
        lemma_spread_len(t, other, other_ids, p);
        let u = spread(t, other, other_ids, p);
        lemma_append_keeps(u, bin_of(other, p, u.len()) as int, other_ids, word, d, ids);
    }
}

/// Spreading `ids` over the choices `0..c` of `word` puts a copy in each of
/// their bins.
proof fn lemma_spread_establishes(t: Seq<Seq<u32>>, word: Seq<char>, ids: Seq<u32>, c: nat)
    requires
        t.len() > 0,
    ensures
        holds_own_copies(spread(t, word, ids, c), word, c, ids),
    decreases c,
{
    if c > 0 {
        let p = (c - 1) as nat;
        lemma_spread_establishes(t, word, ids, p);
        lemma_spread_len(t, word, ids, p);
        let u = spread(t, word, ids, p);
        let b = bin_of(word, p, u.len()) as int;
        lemma_append_keeps(u, b, ids, word, p, ids);
        let v = spread(t, word, ids, c);
        assert(v == u.update(b, u[b] + ids));
        assert forall|k: nat| k < c implies shared(
            v[#[trigger] bin_of(word, k, v.len()) as int],
            ids,
        ) >= ids.len() by {
            if k == p {
                lemma_shared_append(u[b], ids, ids);
                lemma_shared_all(ids, ids);
            }
        }
    }
}

proof fn lemma_potential_keeps(
    cfg: Config,
    words: Seq<Seq<char>>,
    results: Seq<Seq<u32>>,
    i: nat,
    j: nat,
    word: Seq<char>,
    ids: Seq<u32>,
)
    requires
        cfg.max_bins > 0,
        i <= j,
        holds_own_copies(potential_upto(cfg, words, results, i), word, cfg.d as nat, ids),
    ensures
        holds_own_copies(potential_upto(cfg, words, results, j), word, cfg.d as nat, ids),
    decreases j,
{
    if i < j {
        let p = (j - 1) as nat;
        lemma_potential_keeps(cfg, words, results, i, p, word, ids);
        lemma_potential_len(cfg, words, results, p);
        if is_kept(cfg, results[j - 1]) {
            lemma_spread_keeps(
                potential_upto(cfg, words, results, p),
                words[j - 1],
                id_set(results[j - 1]),
                cfg.d as nat,
                word,
                cfg.d as nat,
                ids,
            );
        }
    }
}

/// The table of potential contents holds, in each bin that an eligible
/// keyword's choices select, a copy of that keyword's identifiers.
pub proof fn lemma_potential_own(
    cfg: Config,
    words: Seq<Seq<char>>,
    results: Seq<Seq<u32>>,
    i: int,
)
    requires
        cfg.max_bins > 0,
        0 <= i < words.len(),
        is_kept(cfg, results[i]),
    ensures
        holds_own_copies(
            potential_upto(cfg, words, results, words.len()),
            words[i],
            cfg.d as nat,
            id_set(results[i]),
        ),
{
    lemma_potential_len(cfg, words, results, i as nat);
    lemma_spread_establishes(
        potential_upto(cfg, words, results, i as nat),
        words[i],
        id_set(results[i]),
        cfg.d as nat,
    );
    lemma_potential_keeps(
        cfg,
        words,
        results,
        (i + 1) as nat,
        words.len(),
        words[i],
        id_set(results[i]),
    );
}

/// `n` empty bins.
fn new_bins(n: usize) -> (r: Vec<Vec<u32>>)
    ensures
        r.deep_view() == empty_bins(n as nat),
        r@.len() == n,
{
    let mut bins: Vec<Vec<u32>> = Vec::new();
    let mut i: usize = 0;
    while i < n
        invariant
            i <= n,
            bins@.len() == i,
            bins.deep_view() =~= empty_bins(i as nat),
        decreases n - i,
    {
        let empty: Vec<u32> = Vec::new();
        assert(empty.deep_view() =~= Seq::<u32>::empty());
        let ghost before = bins.deep_view();
        bins.push(empty);
        assert(bins.deep_view() =~= before.push(Seq::<u32>::empty()));
        i = i + 1;
        assert(bins.deep_view() =~= empty_bins(i as nat));
    }
    bins
}

/// Appends every entry of `ids` to `row`.
fn extend_row(row: &mut Vec<u32>, ids: &Vec<u32>)
    ensures
        final(row)@ == old(row)@ + ids@,
{
    let ghost start = row@;
    let mut i: usize = 0;
    while i < ids.len()
        invariant
            i <= ids@.len(),
            row@ =~= start + ids@.subrange(0, i as int),
        decreases ids@.len() - i,
    {
        row.push(ids[i]);
        i = i + 1;
        assert(row@ =~= start + ids@.subrange(0, i as int));
    }
    assert(ids@.subrange(0, ids@.len() as int) =~= ids@);
}

/// Appends `ids` to the bin of each of the choices `0..d` of `word`.
fn spread_into(table: &mut Vec<Vec<u32>>, word: &str, ids: &Vec<u32>, d: usize)
    requires
        old(table)@.len() > 0,
    ensures
        final(table).deep_view() == spread(old(table).deep_view(), word@, ids@, d as nat),
        final(table)@.len() == old(table)@.len(),
{
    let ghost start = table.deep_view();
    let mut c: usize = 0;
    while c < d
        invariant
            c <= d,
            table@.len() == start.len(),
            start.len() > 0,
            table.deep_view() == spread(start, word@, ids@, c as nat),
        decreases d - c,
    {
        proof {
            lemma_spread_len(start, word@, ids@, c as nat);
        }
        let b = bin_index(word, c, table.len());
        extend_row(&mut table[b], ids);
        c = c + 1;
        assert(table.deep_view() =~~= spread(start, word@, ids@, c as nat));
    }
}

/// The table of potential contents: for every eligible keyword and every one
/// of its choices, the keyword's identifiers appended to the chosen bin.
fn potential_table(config: &Config, keywords: &Vec<String>, results: &Vec<Vec<u32>>) -> (r: Vec<
    Vec<u32>,
>)
    requires
        config.max_bins > 0,
        keywords@.len() == results@.len(),
    ensures
        r.deep_view() == potential_upto(
            *config,
            words_of(keywords@),
            results.deep_view(),
            keywords@.len(),
        ),
        r@.len() == config.max_bins,
{
    let ghost words = words_of(keywords@);
    let ghost res = results.deep_view();
    let mut table = new_bins(config.max_bins);
    let mut i: usize = 0;
    while i < keywords.len()
        invariant
            i <= keywords@.len(),
            keywords@.len() == results@.len(),
            config.max_bins > 0,
            words == words_of(keywords@),
            res == results.deep_view(),
            table@.len() == config.max_bins,
            table.deep_view() == potential_upto(*config, words, res, i as nat),
        decreases keywords@.len() - i,
    {
        let result = &results[i];
        assert(result@ == res[i as int]);
        if result.len() >= config.filter_k {
            let ids = dedup_ids(result);
            let word = keywords[i].as_str();
            spread_into(&mut table, word, &ids, config.d);
        }
        i = i + 1;
    }
    table
}

/// The sum of the bins' sizes, or `None` when it does not fit in `usize`.
fn sum_sizes(bins: &Vec<Vec<u32>>) -> (r: Option<usize>)
    ensures
        match r {
            Some(t) => t == total_len(bins.deep_view()),
            None => total_len(bins.deep_view()) > usize::MAX,
        },
{
    let ghost view = bins.deep_view();
    let mut total: usize = 0;
    let mut b: usize = 0;
    while b < bins.len()
        invariant
            b <= bins@.len(),
            view == bins.deep_view(),
            total == total_len(view.subrange(0, b as int)),
        decreases bins@.len() - b,
    {
        assert(view.subrange(0, b + 1).drop_last() =~= view.subrange(0, b as int));
        assert(bins[b as int]@ == view[b as int]);
        let size = bins[b].len();
        if total > usize::MAX - size {
            proof {
                lemma_total_len_prefix(view, b + 1, view.len() as int);
                assert(view.subrange(0, view.len() as int) =~= view);
            }
            return None;
        }
        total = total + size;
        b = b + 1;
    }
    assert(view.subrange(0, view.len() as int) =~= view);
    Some(total)
}

/// Places every keyword with at least `filter_k` results into one of its
/// candidate bins, in keyword order, and summarises the run.
///
/// `results[i]` holds the document identifiers that the search returned for
/// `keywords[i]`.
pub fn assign_bins(config: &Config, keywords: &Vec<String>, results: &Vec<Vec<u32>>) -> (r: Result<
    Placement,
    BM25Error,
>)
    requires
        keywords@.len() == results@.len(),
    ensures
        placement_outcome(*config, keywords@, results.deep_view(), r),
{
    if config.max_bins == 0 {
        return Err(BM25Error::ZeroBins);
    }
    if config.d == 0 {
        return Err(BM25Error::NoChoices);
    }
    let ghost words = words_of(keywords@);
    let ghost res = results.deep_view();
    let two_pass = config.evaluation == Evaluation::TwoPass;
    let table = if two_pass {
        potential_table(config, keywords, results)
    } else {
        Vec::new()
    };
    let (low, full) = match config.strategy {
        Strategy::MaxOverlap => (0, 0),
        Strategy::MaxLoadAware => (0, config.max_load_factor),
        Strategy::TwoFactor => (config.min_overlap_factor, config.max_load_factor),
    };
    let mut bins = new_bins(config.max_bins);
    let mut removed: usize = 0;
    let mut with_overlap: usize = 0;
    let mut choices: Vec<Option<usize>> = Vec::new();
    let mut i: usize = 0;
    while i < keywords.len()
        invariant
            i <= keywords@.len(),
            keywords@.len() == results@.len(),
            config.max_bins > 0,
            config.d > 0,
            words == words_of(keywords@),
            res == results.deep_view(),
            two_pass == (config.evaluation == Evaluation::TwoPass),
            two_pass ==> table.deep_view() == potential_upto(*config, words, res, words.len()),
            two_pass ==> table@.len() == config.max_bins,
            low == drop_counts(*config).0,
            full == drop_counts(*config).1,
            bins@.len() == config.max_bins,
            with_overlap <= i,
            bins.deep_view() == run_upto(*config, words, res, i as nat).bins,
            removed == run_upto(*config, words, res, i as nat).removed,
            with_overlap == run_upto(*config, words, res, i as nat).with_overlap,
            choices@ == run_upto(*config, words, res, i as nat).choices,
        decreases keywords@.len() - i,
    {
        let result = &results[i];
        assert(result@ == res[i as int]);
        if result.len() < config.filter_k {
            choices.push(None);
        } else {
            let ids = dedup_ids(result);
            let word = keywords[i].as_str();
            let cands = if two_pass {
                proof {
                    lemma_potential_own(*config, words, res, i as int);
                }
                get_bins(word, config.d, &ids, &table, true)
            } else {
                get_bins(word, config.d, &ids, &bins, false)
            };
            let ghost all = cands@;
            let c = select_candidate(cands, low, full);
            proof {
                lemma_select_member(all, low as nat, full as nat);
                let j = choose|j: int| 0 <= j < all.len() && all[j] == c;
                assert(c == all[j]);
            }
            if removed > usize::MAX - c.overlap {
                proof {
                    lemma_removed_monotone(*config, words, res, (i + 1) as nat, words.len());
                }
                return Err(BM25Error::Overflow);
            }
            removed = removed + c.overlap;
            if c.overlap > 0 {
                with_overlap = with_overlap + 1;
            }
            let ghost before = bins.deep_view();
            let ghost old_bins = bins@;
            assert(old_bins[c.bin as int]@ =~= before[c.bin as int]);
            add_ids_into(&mut bins[c.bin], &ids);
            assert(bins@ == old_bins.update(c.bin as int, bins@[c.bin as int]));
            assert(bins@[c.bin as int].deep_view() =~= add_ids(before[c.bin as int], ids@));
            assert(bins.deep_view() =~~= before.update(
                c.bin as int,
                add_ids(before[c.bin as int], ids@),
            ));
            choices.push(Some(c.bin));
        }
        i = i + 1;
    }
    let total_items = match sum_sizes(&bins) {
        Some(t) => t,
        None => {
            return Err(BM25Error::Overflow);
        },
    };
    let metadata = Metadata {
        k: config.k,
        num_bins: config.max_bins,
        d: config.d,
        removed_items: removed,
        total_items,
        average_load_per_bin: total_items / config.max_bins,
        keywords_with_overlap: with_overlap,
    };
    Ok(Placement { metadata, bins, choices })
}

/// The top-k-only mode, without bins: each keyword with at least `filter_k`
/// results, paired with the set of its result identifiers, in keyword order.
pub fn top_k_sets(keywords: &Vec<String>, results: &Vec<Vec<u32>>, filter_k: usize) -> (r: Vec<
    (String, Vec<u32>),
>)
    requires
        keywords@.len() == results@.len(),
    ensures
        pairs_of(r@) == top_k_pairs(
            words_of(keywords@),
            results.deep_view(),
            filter_k as nat,
            keywords@.len(),
        ),
{
    let ghost words = words_of(keywords@);
    let ghost res = results.deep_view();
    let mut pairs: Vec<(String, Vec<u32>)> = Vec::new();
    let mut i: usize = 0;
    while i < keywords.len()
        invariant
            i <= keywords@.len(),
            keywords@.len() == results@.len(),
            words == words_of(keywords@),
            res == results.deep_view(),
            pairs_of(pairs@) == top_k_pairs(words, res, filter_k as nat, i as nat),
        decreases keywords@.len() - i,
    {
        let result = &results[i];
        assert(result@ == res[i as int]);
        if result.len() >= filter_k {
            let ids = dedup_ids(result);
            let ghost before = pairs@;
            pairs.push((keywords[i].clone(), ids));
            assert(pairs_of(pairs@) =~= pairs_of(before).push((words[i as int], id_set(res[i as int]))));
        }
        i = i + 1;
    }
    pairs
}

} // verus!
