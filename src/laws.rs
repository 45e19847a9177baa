//! Properties of placement runs, proved over the run's specification.
use crate::candidates::{candidates_of, lemma_select_member};
use crate::hashing::bin_of;
use crate::ids::{add_ids, id_set, lemma_add_ids};
use crate::placement::{
    chosen, drop_counts, empty_bins, top_k_pairs, is_kept, lemma_potential_len, placement_outcome, potential_upto,
    run, run_upto, total_len, metadata_of, BM25Error, Config, Evaluation, Placement,
};
use vstd::prelude::*;

verus! {

/// The identifiers placed into bin `b` by the recorded `choices`.
pub open spec fn placed_union(choices: Seq<Option<usize>>, results: Seq<Seq<u32>>, b: int) -> Set<
    u32,
>
    decreases choices.len(),
{
    if choices.len() == 0 {
        Set::empty()
    } else {
        let i = choices.len() - 1;
        placed_union(choices.drop_last(), results, b).union(
            if choices.last() == Some(b as usize) {
                id_set(results[i]).to_set()
            } else {
                Set::empty()
            },
        )
    }
}

/// The sizes of the identifier sets placed by `choices`, summed: each
/// placement counted once.
pub open spec fn placed_total(choices: Seq<Option<usize>>, results: Seq<Seq<u32>>) -> nat
    decreases choices.len(),
{
    if choices.len() == 0 {
        0
    } else {
        let i = choices.len() - 1;
        placed_total(choices.drop_last(), results) + if choices.last() is Some {
            id_set(results[i]).len()
        } else {
            0
        }
    }
}

/// The sizes of the identifier sets of the eligible keywords among the first
/// `i`, summed.
pub open spec fn kept_total(cfg: Config, results: Seq<Seq<u32>>, i: nat) -> nat
    decreases i,
{
    if i == 0 {
        0
    } else {
        kept_total(cfg, results, (i - 1) as nat) + if is_kept(cfg, results[i - 1]) {
            id_set(results[i - 1]).len()
        } else {
            0
        }
    }
}

/// The chosen candidate names a bin below `max_bins`.
proof fn lemma_chosen_bin(
    cfg: Config,
    words: Seq<Seq<char>>,
    results: Seq<Seq<u32>>,
    bins: Seq<Seq<u32>>,
    i: int,
)
    requires
        cfg.max_bins > 0,
        cfg.d > 0,
        bins.len() == cfg.max_bins,
    ensures
        chosen(cfg, words, results, bins, i).bin < cfg.max_bins,
{
    let two_pass = cfg.evaluation == Evaluation::TwoPass;
    let table = if two_pass {
        potential_upto(cfg, words, results, words.len())
    } else {
        bins
    };
    lemma_potential_len(cfg, words, results, words.len());
    let cands = candidates_of(words[i], cfg.d as nat, table, id_set(results[i]), two_pass);
    lemma_select_member(cands, drop_counts(cfg).0, drop_counts(cfg).1);
    let c = chosen(cfg, words, results, bins, i);
    let j = choose|j: int| 0 <= j < cands.len() && cands[j] == c;
    assert(c == cands[j]);
    assert(bin_of(words[i], j as nat, table.len()) < table.len());
}

/// After the first `i` keywords every bin is duplicate-free and holds exactly
/// the identifiers placed into it; a keyword is placed exactly when it is
/// eligible, and always into an existing bin.
pub proof fn lemma_run_upto(cfg: Config, words: Seq<Seq<char>>, results: Seq<Seq<u32>>, i: nat)
    requires
        cfg.max_bins > 0,
        cfg.d > 0,
        i <= words.len(),
        words.len() == results.len(),
    ensures
        ({
            let st = run_upto(cfg, words, results, i);
            &&& st.bins.len() == cfg.max_bins
            &&& st.choices.len() == i
            &&& forall|b: int|
                0 <= b < cfg.max_bins ==> (#[trigger] st.bins[b]).no_duplicates()
                    && st.bins[b].to_set() == placed_union(st.choices, results, b)
            &&& forall|j: int|
                0 <= j < i ==> ((#[trigger] st.choices[j]) is Some <==> is_kept(cfg, results[j]))
            &&& forall|j: int|
                0 <= j < i && (#[trigger] st.choices[j]) is Some ==> st.choices[j]->0
                    < cfg.max_bins
            &&& placed_total(st.choices, results) == kept_total(cfg, results, i)
        }),
    decreases i,
{
    if i == 0 {
        let st = run_upto(cfg, words, results, i);
        assert forall|b: int| 0 <= b < cfg.max_bins implies (#[trigger] st.bins[b]).no_duplicates()
            && st.bins[b].to_set() == placed_union(st.choices, results, b) by {
            assert(st.bins[b] == empty_bins(cfg.max_bins as nat)[b]);
            assert(st.bins[b].to_set() =~= Set::empty());
        }
    } else {
        let p = (i - 1) as nat;
        lemma_run_upto(cfg, words, results, p);
        let prev = run_upto(cfg, words, results, p);
        let st = run_upto(cfg, words, results, i);
        assert(st.choices.drop_last() =~= prev.choices);
        if !is_kept(cfg, results[i - 1]) {
            assert forall|b: int| 0 <= b < cfg.max_bins implies (#[trigger] st.bins[b]).no_duplicates()
                && st.bins[b].to_set() == placed_union(st.choices, results, b) by {
                assert(placed_union(st.choices, results, b) =~= placed_union(
                    prev.choices,
                    results,
                    b,
                ));
            }
        } else {
            let c = chosen(cfg, words, results, prev.bins, i - 1);
            lemma_chosen_bin(cfg, words, results, prev.bins, i - 1);
            let ids = id_set(results[i - 1]);
            assert forall|b: int| 0 <= b < cfg.max_bins implies (#[trigger] st.bins[b]).no_duplicates()
                && st.bins[b].to_set() == placed_union(st.choices, results, b) by {
                if b == c.bin as int {
                    lemma_add_ids(prev.bins[b], ids);
                    assert(st.bins[b] == add_ids(prev.bins[b], ids));
                    assert(st.choices.last() == Some(b as usize));
                } else {
                    assert(st.bins[b] == prev.bins[b]);
                    assert(placed_union(st.choices, results, b) =~= placed_union(
                        prev.choices,
                        results,
                        b,
                    ));
                }
            }
        }
        assert forall|j: int| 0 <= j < i implies ((#[trigger] st.choices[j]) is Some <==> is_kept(
            cfg,
            results[j],
        )) by {
            if j < p {
                assert(st.choices[j] == prev.choices[j]);
            }
        }
        assert forall|j: int| 0 <= j < i && (#[trigger] st.choices[j]) is Some implies st.choices[j]->0
            < cfg.max_bins by {
            if j < p {
                assert(st.choices[j] == prev.choices[j]);
            } else {
                lemma_chosen_bin(cfg, words, results, prev.bins, i - 1);
            }
        }
    }
}

proof fn lemma_add_ids_len(bin: Seq<u32>, ids: Seq<u32>)
    ensures
        add_ids(bin, ids).len() <= bin.len() + ids.len(),
    decreases ids.len(),
{
    if ids.len() > 0 {
        lemma_add_ids_len(bin, ids.drop_last());
    }
}

proof fn lemma_total_len_update(bins: Seq<Seq<u32>>, b: int, x: Seq<u32>)
    requires
        0 <= b < bins.len(),
    ensures
        total_len(bins.update(b, x)) == total_len(bins) - bins[b].len() + x.len(),
    decreases bins.len(),
{
    let u = bins.update(b, x);
    if b == bins.len() - 1 {
        assert(u.drop_last() =~= bins.drop_last());
    } else {
        lemma_total_len_update(bins.drop_last(), b, x);
        assert(u.drop_last() =~= bins.drop_last().update(b, x));
    }
}

proof fn lemma_total_len_empty(n: nat)
    ensures
        total_len(empty_bins(n)) == 0,
    decreases n,
{
    if n > 0 {
        lemma_total_len_empty((n - 1) as nat);
        assert(empty_bins(n).drop_last() =~= empty_bins((n - 1) as nat));
    }
}

/// After the first `i` keywords the bins hold at most as many identifiers
/// as the eligible keywords' identifier sets together.
proof fn lemma_total_bound(cfg: Config, words: Seq<Seq<char>>, results: Seq<Seq<u32>>, i: nat)
    requires
        cfg.max_bins > 0,
        cfg.d > 0,
        i <= words.len(),
        words.len() == results.len(),
    ensures
        total_len(run_upto(cfg, words, results, i).bins) <= kept_total(cfg, results, i),
    decreases i,
{
    if i == 0 {
        lemma_total_len_empty(cfg.max_bins as nat);
    } else {
        let p = (i - 1) as nat;
        lemma_total_bound(cfg, words, results, p);
        lemma_run_upto(cfg, words, results, p);
        let prev = run_upto(cfg, words, results, p);
        if is_kept(cfg, results[i - 1]) {
            lemma_chosen_bin(cfg, words, results, prev.bins, i - 1);
            let b = chosen(cfg, words, results, prev.bins, i - 1).bin as int;
            let ids = id_set(results[i - 1]);
            lemma_add_ids_len(prev.bins[b], ids);
            lemma_total_len_update(prev.bins, b, add_ids(prev.bins[b], ids));
        }
    }
}

/// Placement is deterministic: two runs on the same configuration, keywords
/// and search results end alike, with identical bins, choices and summary,
/// or with the same error.
pub proof fn law_deterministic(
    cfg: Config,
    keywords: Seq<String>,
    results: Seq<Seq<u32>>,
    first: Result<Placement, BM25Error>,
    second: Result<Placement, BM25Error>,
)
    requires
        placement_outcome(cfg, keywords, results, first),
        placement_outcome(cfg, keywords, results, second),
    ensures
        first is Ok <==> second is Ok,
        first is Ok ==> {
            &&& first->Ok_0.bins.deep_view() == second->Ok_0.bins.deep_view()
            &&& first->Ok_0.choices@ == second->Ok_0.choices@
            &&& first->Ok_0.metadata == second->Ok_0.metadata
        },
        first is Err ==> first->Err_0 == second->Err_0,
{
}

/// Nothing is lost and nothing is made up: every bin holds exactly the union
/// of the identifier sets placed into it, the placements, each counted once,
/// add up to the sizes of the eligible keywords' identifier sets, and the
/// bins together hold no more identifiers than that.
pub proof fn law_conservation(cfg: Config, words: Seq<Seq<char>>, results: Seq<Seq<u32>>)
    requires
        cfg.max_bins > 0,
        cfg.d > 0,
        words.len() == results.len(),
    ensures
        ({
            let st = run(cfg, words, results);
            &&& forall|b: int|
                0 <= b < cfg.max_bins ==> (#[trigger] st.bins[b]).to_set() == placed_union(
                    st.choices,
                    results,
                    b,
                )
            &&& placed_total(st.choices, results) == kept_total(cfg, results, words.len())
            &&& total_len(st.bins) <= kept_total(cfg, results, words.len())
        }),
{
    lemma_run_upto(cfg, words, results, words.len());
    lemma_total_bound(cfg, words, results, words.len());
}

/// A keyword with exactly `filter_k - 1` results is left out; one with
/// exactly `filter_k` results is placed.
pub proof fn law_filter_threshold(cfg: Config, words: Seq<Seq<char>>, results: Seq<Seq<u32>>)
    requires
        cfg.max_bins > 0,
        cfg.d > 0,
        words.len() == results.len(),
    ensures
        forall|i: int|
            0 <= i < words.len() && results[i].len() + 1 == cfg.filter_k ==> (#[trigger] run(
                cfg,
                words,
                results,
            ).choices[i]) is None,
        forall|i: int|
            0 <= i < words.len() && results[i].len() == cfg.filter_k ==> (#[trigger] run(
                cfg,
                words,
                results,
            ).choices[i]) is Some,
{
    lemma_run_upto(cfg, words, results, words.len());
}

/// The average load of a successful run is its total number of items divided
/// by the number of bins, truncated.
pub proof fn law_average_load(
    cfg: Config,
    keywords: Seq<String>,
    results: Seq<Seq<u32>>,
    r: Result<Placement, BM25Error>,
)
    requires
        placement_outcome(cfg, keywords, results, r),
        r is Ok,
    ensures
        r->Ok_0.metadata.num_bins > 0,
        r->Ok_0.metadata.average_load_per_bin == r->Ok_0.metadata.total_items
            / r->Ok_0.metadata.num_bins,
{
}

/// Every hash choice names a bin in `0..max_bins`.
pub proof fn law_bin_index_range(word: Seq<char>, choice: nat, max_bins: nat)
    requires
        max_bins > 0,
    ensures
        0 <= bin_of(word, choice, max_bins) < max_bins,
{
}

/// When every eligible keyword has the same identifier set `s`, as in a
/// corpus of identical documents, every bin ends either empty or holding
/// exactly `s`.
pub proof fn law_identical_sets(
    cfg: Config,
    words: Seq<Seq<char>>,
    results: Seq<Seq<u32>>,
    s: Set<u32>,
)
    requires
        cfg.max_bins > 0,
        cfg.d > 0,
        words.len() == results.len(),
        forall|i: int|
            0 <= i < results.len() && is_kept(cfg, #[trigger] results[i]) ==> id_set(
                results[i],
            ).to_set() == s,
    ensures
        forall|b: int|
            0 <= b < cfg.max_bins ==> (#[trigger] run(cfg, words, results).bins[b]).len() == 0
                || run(cfg, words, results).bins[b].to_set() == s,
{
    lemma_run_upto(cfg, words, results, words.len());
    let st = run(cfg, words, results);
    assert forall|b: int| 0 <= b < cfg.max_bins implies (#[trigger] st.bins[b]).len() == 0
        || st.bins[b].to_set() == s by {
        lemma_placed_union_identical(cfg, st.choices, results, b, s);
        if st.bins[b].len() > 0 {
            assert(st.bins[b].to_set().contains(st.bins[b][0]));
        }
    }
}

proof fn lemma_placed_union_identical(
    cfg: Config,
    choices: Seq<Option<usize>>,
    results: Seq<Seq<u32>>,
    b: int,
    s: Set<u32>,
)
    requires
        choices.len() <= results.len(),
        forall|i: int|
            0 <= i < results.len() && is_kept(cfg, #[trigger] results[i]) ==> id_set(
                results[i],
            ).to_set() == s,
        forall|j: int|
            0 <= j < choices.len() ==> ((#[trigger] choices[j]) is Some <==> is_kept(
                cfg,
                results[j],
            )),
    ensures
        placed_union(choices, results, b) == Set::<u32>::empty() || placed_union(
            choices,
            results,
            b,
        ) == s,
    decreases choices.len(),
{
    if choices.len() > 0 {
        let rest = choices.drop_last();
        assert forall|j: int| 0 <= j < rest.len() implies ((#[trigger] rest[j]) is Some
            <==> is_kept(cfg, results[j])) by {
            assert(rest[j] == choices[j]);
        }
        lemma_placed_union_identical(cfg, rest, results, b, s);
        let i = choices.len() - 1;
        if choices.last() == Some(b as usize) {
            assert(choices[i] is Some);
            assert(placed_union(choices, results, b) =~= s);
        } else {
            assert(placed_union(choices, results, b) =~= placed_union(rest, results, b));
        }
    }
}

/// The keywords that the top-k-only mode keeps among the first `i`.
pub open spec fn top_k_keys(words: Seq<Seq<char>>, results: Seq<Seq<u32>>, filter_k: nat, i: nat) -> Seq<
    Seq<char>,
> {
    top_k_pairs(words, results, filter_k, i).map_values(|p: (Seq<char>, Seq<u32>)| p.0)
}

proof fn lemma_top_k_keys(words: Seq<Seq<char>>, results: Seq<Seq<u32>>, filter_k: nat, i: nat)
    requires
        i <= words.len(),
        words.len() == results.len(),
    ensures
        forall|w: Seq<char>|
            #[trigger] top_k_keys(words, results, filter_k, i).contains(w) <==> exists|j: int|
                0 <= j < i && words[j] == w && results[j].len() >= filter_k,
    decreases i,
{
    if i > 0 {
        let p = (i - 1) as nat;
        lemma_top_k_keys(words, results, filter_k, p);
        let prev = top_k_keys(words, results, filter_k, p);
        let cur = top_k_keys(words, results, filter_k, i);
        if results[i - 1].len() >= filter_k {
            assert(cur =~= prev.push(words[i - 1]));
            assert forall|w: Seq<char>| #[trigger] cur.contains(w) <==> exists|j: int|
                0 <= j < i && words[j] == w && results[j].len() >= filter_k by {
                if cur.contains(w) {
                    let k = choose|k: int| 0 <= k < cur.len() && cur[k] == w;
                    if k < prev.len() {
                        assert(prev[k] == w);
                        assert(prev.contains(w));
                        let j = choose|j: int|
                            0 <= j < p && words[j] == w && results[j].len() >= filter_k;
                        assert(0 <= j < i);
                    } else {
                        assert(words[i - 1] == w);
                    }
                }
                if exists|j: int| 0 <= j < i && words[j] == w && results[j].len() >= filter_k {
                    let j = choose|j: int| 0 <= j < i && words[j] == w && results[j].len() >= filter_k;
                    if j < p {
                        assert(prev.contains(w));
                        let k = choose|k: int| 0 <= k < prev.len() && prev[k] == w;
                        assert(cur[k] == w);
                    } else {
                        assert(cur[cur.len() - 1] == w);
                    }
                }
            }
        } else {
            assert(cur =~= prev);
            assert forall|w: Seq<char>| #[trigger] cur.contains(w) <==> exists|j: int|
                0 <= j < i && words[j] == w && results[j].len() >= filter_k by {
                if cur.contains(w) {
                    assert(prev.contains(w));
                    let j = choose|j: int| 0 <= j < p && words[j] == w && results[j].len() >= filter_k;
                    assert(0 <= j < i);
                }
                if exists|j: int| 0 <= j < i && words[j] == w && results[j].len() >= filter_k {
                    let j = choose|j: int| 0 <= j < i && words[j] == w && results[j].len() >= filter_k;
                    assert(j < p);
                    assert(prev.contains(w));
                }
            }
        }
    }
}

/// In the top-k-only mode over distinct keywords, a keyword is kept exactly
/// when its search returned at least `filter_k` results: one with
/// `filter_k - 1` results is left out, one with `filter_k` results is kept.
pub proof fn law_top_k_membership(words: Seq<Seq<char>>, results: Seq<Seq<u32>>, filter_k: nat)
    requires
        words.len() == results.len(),
        words.no_duplicates(),
    ensures
        forall|i: int|
            0 <= i < words.len() ==> (top_k_keys(words, results, filter_k, words.len()).contains(
                #[trigger] words[i],
            ) <==> results[i].len() >= filter_k),
{
    lemma_top_k_keys(words, results, filter_k, words.len());
    assert forall|i: int| 0 <= i < words.len() implies (top_k_keys(
        words,
        results,
        filter_k,
        words.len(),
    ).contains(#[trigger] words[i]) <==> results[i].len() >= filter_k) by {
        if top_k_keys(words, results, filter_k, words.len()).contains(words[i]) {
            let j = choose|j: int|
                0 <= j < words.len() && words[j] == words[i] && results[j].len() >= filter_k;
            assert(j == i);
        }
    }
}

proof fn lemma_potential_remove(
    cfg: Config,
    words: Seq<Seq<char>>,
    results: Seq<Seq<u32>>,
    i: int,
    j: nat,
)
    requires
        words.len() == results.len(),
        0 <= i < words.len(),
        !is_kept(cfg, results[i]),
        j < words.len(),
    ensures
        j <= i ==> potential_upto(cfg, words.remove(i), results.remove(i), j) == potential_upto(
            cfg,
            words,
            results,
            j,
        ),
        j >= i ==> potential_upto(cfg, words.remove(i), results.remove(i), j) == potential_upto(
            cfg,
            words,
            results,
            j + 1,
        ),
    decreases j,
{
    let w2 = words.remove(i);
    let r2 = results.remove(i);
    if j > 0 {
        lemma_potential_remove(cfg, words, results, i, (j - 1) as nat);
        if j <= i {
            assert(w2[j - 1] == words[j - 1]);
            assert(r2[j - 1] == results[j - 1]);
        } else {
            assert(w2[j - 1] == words[j as int]);
            assert(r2[j - 1] == results[j as int]);
        }
    }
    if j == i {
        assert(potential_upto(cfg, words, results, j + 1) == potential_upto(cfg, words, results, j));
    }
}

proof fn lemma_choices_len(cfg: Config, words: Seq<Seq<char>>, results: Seq<Seq<u32>>, j: nat)
    ensures
        run_upto(cfg, words, results, j).choices.len() == j,
    decreases j,
{
    if j > 0 {
        lemma_choices_len(cfg, words, results, (j - 1) as nat);
    }
}

proof fn lemma_run_remove(
    cfg: Config,
    words: Seq<Seq<char>>,
    results: Seq<Seq<u32>>,
    i: int,
    j: nat,
)
    requires
        words.len() == results.len(),
        0 <= i < words.len(),
        !is_kept(cfg, results[i]),
        j < words.len(),
    ensures
        j <= i ==> run_upto(cfg, words.remove(i), results.remove(i), j) == run_upto(
            cfg,
            words,
            results,
            j,
        ),
        j >= i ==> {
            let a = run_upto(cfg, words.remove(i), results.remove(i), j);
            let b = run_upto(cfg, words, results, j + 1);
            &&& a.bins == b.bins
            &&& a.removed == b.removed
            &&& a.with_overlap == b.with_overlap
            &&& a.choices == b.choices.remove(i)
        },
    decreases j,
{
    let w2 = words.remove(i);
    let r2 = results.remove(i);
    lemma_potential_remove(cfg, words, results, i, (words.len() - 1) as nat);
    assert(potential_upto(cfg, w2, r2, w2.len()) == potential_upto(
        cfg,
        words,
        results,
        words.len(),
    ));
    if j > 0 {
        lemma_run_remove(cfg, words, results, i, (j - 1) as nat);
        let prev = run_upto(cfg, w2, r2, (j - 1) as nat);
        if j <= i {
            assert(w2[j - 1] == words[j - 1]);
            assert(r2[j - 1] == results[j - 1]);
            assert(chosen(cfg, w2, r2, prev.bins, j - 1) == chosen(cfg, words, results, prev.bins, j - 1));
        } else {
            assert(w2[j - 1] == words[j as int]);
            assert(r2[j - 1] == results[j as int]);
            assert(chosen(cfg, w2, r2, prev.bins, j - 1) == chosen(cfg, words, results, prev.bins, j as int));
            let o = run_upto(cfg, words, results, j as nat);
            lemma_choices_len(cfg, words, results, j as nat);
            let x = run_upto(cfg, words, results, (j + 1) as nat).choices.last();
            assert(run_upto(cfg, words, results, (j + 1) as nat).choices =~= o.choices.push(x));
            assert(o.choices.push(x).remove(i) =~= o.choices.remove(i).push(x));
        }
    }
    if j == i {
        lemma_choices_len(cfg, words, results, j);
        let o = run_upto(cfg, words, results, j);
        assert(run_upto(cfg, words, results, j + 1).choices =~= o.choices.push(None));
        assert(o.choices.push(None).remove(i) =~= o.choices);
    }
}

/// A keyword left out by the filter is inert: removing it from the keywords
/// and results leaves the bins, the counters and the other keywords'
/// choices as they were, and so the summary too.
pub proof fn law_filtered_keyword_is_inert(
    cfg: Config,
    words: Seq<Seq<char>>,
    results: Seq<Seq<u32>>,
    i: int,
)
    requires
        words.len() == results.len(),
        0 <= i < words.len(),
        !is_kept(cfg, results[i]),
    ensures
        ({
            let a = run(cfg, words.remove(i), results.remove(i));
            let b = run(cfg, words, results);
            &&& a.bins == b.bins
            &&& a.removed == b.removed
            &&& a.with_overlap == b.with_overlap
            &&& a.choices == b.choices.remove(i)
            &&& metadata_of(cfg, a) == metadata_of(cfg, b)
        }),
{
    lemma_run_remove(cfg, words, results, i, (words.len() - 1) as nat);
}

} // verus!
