//! Candidate bins of one keyword: evaluation, filtering and selection.
use crate::hashing::{bin_index, bin_of};
use crate::ids::{count_shared, shared};
use vstd::prelude::*;

verus! {

/// One of a keyword's `d` hash choices: the choice index, the bin it points
/// at, that bin's current load and the overlap of the bin with the keyword's
/// identifiers.
#[derive(Clone, Copy, Debug, PartialEq, Eq, Structural)]
pub struct Candidate {
    pub choice: usize,
    pub bin: usize,
    pub size: usize,
    pub overlap: usize,
}

/// The overlap of `contents` with `ids`. With `exclude_own`, `contents` is a
/// table of potential contents that holds `ids` at least once, and that
/// copy is not counted.
pub open spec fn overlap_of(contents: Seq<u32>, ids: Seq<u32>, exclude_own: bool) -> nat {
    if exclude_own {
        (shared(contents, ids) - ids.len()) as nat
    } else {
        shared(contents, ids)
    }
}

/// Every bin that one of the choices `0..d` of `word` selects in `table`
/// holds a copy of `ids`, as far as `shared` can tell.
pub open spec fn holds_own_copies(table: Seq<Seq<u32>>, word: Seq<char>, d: nat, ids: Seq<u32>) -> bool {
    forall|c: nat|
        c < d ==> shared(table[#[trigger] bin_of(word, c, table.len()) as int], ids) >= ids.len()
}

/// The candidate of a keyword's `choice`-th hash against bin contents `table`.
pub open spec fn candidate_of(
    word: Seq<char>,
    choice: nat,
    table: Seq<Seq<u32>>,
    ids: Seq<u32>,
    exclude_own: bool,
) -> Candidate {
    let b = bin_of(word, choice, table.len());
    Candidate {
        choice: choice as usize,
        bin: b as usize,
        size: table[b as int].len() as usize,
        overlap: overlap_of(table[b as int], ids, exclude_own) as usize,
    }
}

/// The candidates of the hash choices `0..d`, in choice order.
pub open spec fn candidates_of(
    word: Seq<char>,
    d: nat,
    table: Seq<Seq<u32>>,
    ids: Seq<u32>,
    exclude_own: bool,
) -> Seq<Candidate> {
    Seq::new(d, |c: int| candidate_of(word, c as nat, table, ids, exclude_own))
}

/// Whether `a` stays ahead of a later `x` in a stable sort: ascending by
/// overlap, or, with `by_load`, descending by load.
pub open spec fn stays_ahead(a: Candidate, x: Candidate, by_load: bool) -> bool {
    if by_load {
        a.size >= x.size
    } else {
        a.overlap <= x.overlap
    }
}

/// The sorted sequence `s` with `x` inserted after every entry that stays
/// ahead of it.
pub open spec fn insert_sorted(s: Seq<Candidate>, x: Candidate, by_load: bool) -> Seq<Candidate>
    decreases s.len(),
{
    if s.len() == 0 {
        seq![x]
    } else if stays_ahead(s.last(), x, by_load) {
        s.push(x)
    } else {
        insert_sorted(s.drop_last(), x, by_load).push(s.last())
    }
}

/// The stable sort of `s[0..i]`: ascending by overlap, or, with `by_load`,
/// descending by load; equal keys keep their order.
pub open spec fn stable_sort_upto(s: Seq<Candidate>, by_load: bool, i: nat) -> Seq<Candidate>
    decreases i,
{
    if i == 0 || i > s.len() {
        Seq::empty()
    } else {
        insert_sorted(stable_sort_upto(s, by_load, (i - 1) as nat), s[i - 1], by_load)
    }
}

pub open spec fn stable_sort(s: Seq<Candidate>, by_load: bool) -> Seq<Candidate> {
    stable_sort_upto(s, by_load, s.len())
}

/// The stable sort of `s` without its first `n` entries: the `n` lowest
/// overlaps, or, with `by_load`, the `n` highest loads, are dropped.
pub open spec fn drop_first_sorted(s: Seq<Candidate>, n: nat, by_load: bool) -> Seq<Candidate> {
    let t = stable_sort(s, by_load);
    t.skip(if n <= t.len() {
        n as int
    } else {
        t.len() as int
    })
}

/// Whether `a` is preferred to `b`: a higher overlap, or an equal overlap
/// and a lower choice index.
pub open spec fn better(a: Candidate, b: Candidate) -> bool {
    a.overlap > b.overlap || (a.overlap == b.overlap && a.choice < b.choice)
}

/// The index of the preferred candidate among `s[0..i]`.
pub open spec fn best_upto(s: Seq<Candidate>, i: nat) -> int
    decreases i,
{
    if i <= 1 {
        0
    } else {
        let b = best_upto(s, (i - 1) as nat);
        if better(s[i - 1], s[b]) {
            i - 1
        } else {
            b
        }
    }
}

/// The candidate that the selector picks: after dropping the `low` lowest
/// overlaps and then the `full` highest loads, the remaining candidate of
/// maximal overlap, the lowest choice index among equals; when nothing
/// remains, the first candidate.
pub open spec fn select_spec(cands: Seq<Candidate>, low: nat, full: nat) -> Candidate {
    let kept = drop_first_sorted(drop_first_sorted(cands, low, false), full, true);
    if kept.len() == 0 {
        cands[0]
    } else {
        kept[best_upto(kept, kept.len())]
    }
}

pub proof fn lemma_best_upto_bound(s: Seq<Candidate>, i: nat)
    requires
        1 <= i <= s.len(),
    ensures
        0 <= best_upto(s, i) < i,
        forall|k: int| 0 <= k < i ==> #[trigger] s[k].overlap <= s[best_upto(s, i)].overlap,
    decreases i,
{
    if i > 1 {
        lemma_best_upto_bound(s, (i - 1) as nat);
    }
}

pub proof fn lemma_insert_sorted(s: Seq<Candidate>, x: Candidate, by_load: bool)
    ensures
        insert_sorted(s, x, by_load).len() == s.len() + 1,
        forall|k: int|
            0 <= k < s.len() + 1 ==> #[trigger] insert_sorted(s, x, by_load)[k] == x || s.contains(
                insert_sorted(s, x, by_load)[k],
            ),
    decreases s.len(),
{
    let r = insert_sorted(s, x, by_load);
    if s.len() == 0 {
    } else if stays_ahead(s.last(), x, by_load) {
        assert forall|k: int| 0 <= k < s.len() + 1 implies #[trigger] r[k] == x || s.contains(r[k]) by {
            if k < s.len() {
                assert(r[k] == s[k]);
            }
        }
    } else {
        let t = s.drop_last();
        lemma_insert_sorted(t, x, by_load);
        assert forall|k: int| 0 <= k < s.len() + 1 implies #[trigger] r[k] == x || s.contains(r[k]) by {
            if k < s.len() {
                let y = insert_sorted(t, x, by_load)[k];
                assert(r[k] == y);
                if y != x {
                    let j = choose|j: int| 0 <= j < t.len() && t[j] == y;
                    assert(s[j] == y);
                }
            } else {
                assert(r[k] == s[s.len() - 1]);
            }
        }
    }
}

pub proof fn lemma_stable_sort_upto(s: Seq<Candidate>, by_load: bool, i: nat)
    requires
        i <= s.len(),
    ensures
        stable_sort_upto(s, by_load, i).len() == i,
        forall|k: int|
            0 <= k < i ==> s.contains(#[trigger] stable_sort_upto(s, by_load, i)[k]),
    decreases i,
{
    if i > 0 {
        let p = (i - 1) as nat;
        let t = stable_sort_upto(s, by_load, p);
        lemma_stable_sort_upto(s, by_load, p);
        lemma_insert_sorted(t, s[i - 1], by_load);
        assert forall|k: int| 0 <= k < i implies s.contains(
            #[trigger] stable_sort_upto(s, by_load, i)[k],
        ) by {
            let y = stable_sort_upto(s, by_load, i)[k];
            assert(y == insert_sorted(t, s[i - 1], by_load)[k]);
            if y != s[i - 1] {
                let j = choose|j: int| 0 <= j < t.len() && t[j] == y;
                assert(t[j] == stable_sort_upto(s, by_load, p)[j]);
            }
        }
    }
}

/// Dropping sorted candidates keeps only candidates of the input.
pub proof fn lemma_drop_members(s: Seq<Candidate>, n: nat, by_load: bool)
    ensures
        forall|k: int|
            0 <= k < drop_first_sorted(s, n, by_load).len() ==> s.contains(
                #[trigger] drop_first_sorted(s, n, by_load)[k],
            ),
{
    lemma_stable_sort_upto(s, by_load, s.len());
    let t = stable_sort(s, by_load);
    let m = if n <= t.len() {
        n as int
    } else {
        t.len() as int
    };
    assert forall|k: int| 0 <= k < drop_first_sorted(s, n, by_load).len() implies s.contains(
        #[trigger] drop_first_sorted(s, n, by_load)[k],
    ) by {
        assert(drop_first_sorted(s, n, by_load)[k] == t[k + m]);
    }
}

/// The selected candidate is one of the candidates.
pub proof fn lemma_select_member(cands: Seq<Candidate>, low: nat, full: nat)
    requires
        cands.len() > 0,
    ensures
        cands.contains(select_spec(cands, low, full)),
{
    let first = drop_first_sorted(cands, low, false);
    let kept = drop_first_sorted(first, full, true);
    if kept.len() == 0 {
        assert(cands[0] == select_spec(cands, low, full));
    } else {
        lemma_best_upto_bound(kept, kept.len());
        lemma_drop_members(first, full, true);
        lemma_drop_members(cands, low, false);
        let x = kept[best_upto(kept, kept.len())];
        assert(first.contains(x));
        let j = choose|j: int| 0 <= j < first.len() && first[j] == x;
        assert(cands.contains(first[j]));
    }
}

/// Evaluates the `d` hash choices of `word` against the bin contents `table`.
pub fn get_bins(
    word: &str,
    d: usize,
    document_ids: &Vec<u32>,
    table: &Vec<Vec<u32>>,
    exclude_own: bool,
) -> (r: Vec<Candidate>)
    requires
        table@.len() > 0,
        exclude_own ==> holds_own_copies(table.deep_view(), word@, d as nat, document_ids@),
    ensures
        r@ == candidates_of(word@, d as nat, table.deep_view(), document_ids@, exclude_own),
{
    let ghost view = table.deep_view();
    let mut bin_choices: Vec<Candidate> = Vec::new();
    let mut choice: usize = 0;
    while choice < d
        invariant
            choice <= d,
            table@.len() > 0,
            view == table.deep_view(),
            exclude_own ==> holds_own_copies(view, word@, d as nat, document_ids@),
            bin_choices@ =~= candidates_of(word@, d as nat, view, document_ids@, exclude_own).subrange(
                0,
                choice as int,
            ),
        decreases d - choice,
    {
        let index = bin_index(word, choice, table.len());
        let contents = &table[index];
        assert(contents@ == view[index as int]);
        let s = count_shared(contents, document_ids);
        assert(exclude_own ==> s >= document_ids@.len()) by {
            if exclude_own {
                assert(bin_of(word@, choice as nat, view.len()) == index);
            }
        }
        let overlap = if exclude_own {
            s - document_ids.len()
        } else {
            s
        };
        bin_choices.push(Candidate { choice, bin: index, size: contents.len(), overlap });
        choice = choice + 1;
    }
    bin_choices
}

/// Inserts `x` into the sorted vector `v` after every entry that stays ahead
/// of it.
fn insert_sorted_into(v: &mut Vec<Candidate>, x: Candidate, by_load: bool)
    ensures
        final(v)@ == insert_sorted(old(v)@, x, by_load),
    decreases old(v)@.len(),
{
    if v.len() == 0 {
        v.push(x);
    } else {
        let last = v[v.len() - 1];
        let ahead = if by_load {
            last.size >= x.size
        } else {
            last.overlap <= x.overlap
        };
        if ahead {
            v.push(x);
        } else {
            let ghost start = v@;
            v.pop();
            assert(v@ == start.drop_last());
            insert_sorted_into(v, x, by_load);
            v.push(last);
        }
    }
}

/// The stable sort of `bins` that `by_load` names.
fn stable_sorted(bins: &Vec<Candidate>, by_load: bool) -> (r: Vec<Candidate>)
    ensures
        r@ == stable_sort(bins@, by_load),
{
    let mut sorted: Vec<Candidate> = Vec::new();
    let mut i: usize = 0;
    while i < bins.len()
        invariant
            i <= bins@.len(),
            sorted@ == stable_sort_upto(bins@, by_load, i as nat),
        decreases bins@.len() - i,
    {
        insert_sorted_into(&mut sorted, bins[i], by_load);
        i = i + 1;
    }
    sorted
}

fn drop_sorted(bins: &Vec<Candidate>, count: usize, by_load: bool) -> (r: Vec<Candidate>)
    ensures
        r@ == drop_first_sorted(bins@, count as nat, by_load),
{
    let sorted = stable_sorted(bins, by_load);
    let start = if count <= sorted.len() {
        count
    } else {
        sorted.len()
    };
    let mut kept: Vec<Candidate> = Vec::new();
    let mut i: usize = start;
    while i < sorted.len()
        invariant
            start <= i <= sorted@.len(),
            kept@ =~= sorted@.subrange(start as int, i as int),
        decreases sorted@.len() - i,
    {
        kept.push(sorted[i]);
        i = i + 1;
    }
    kept
}

/// The candidates stably sorted by ascending overlap, without the first
/// `count` of them: the `count` lowest overlaps are dropped (equal overlaps
/// keep their order).
pub fn remove_min_overlap(bins: Vec<Candidate>, count: usize) -> (r: Vec<Candidate>)
    ensures
        r@ == drop_first_sorted(bins@, count as nat, false),
{
    drop_sorted(&bins, count, false)
}

/// The candidates stably sorted by descending load, without the first
/// `count` of them: the `count` fullest bins are dropped (equal loads keep
/// their order).
pub fn remove_max_load(bins: Vec<Candidate>, count: usize) -> (r: Vec<Candidate>)
    ensures
        r@ == drop_first_sorted(bins@, count as nat, true),
{
    drop_sorted(&bins, count, true)
}

/// Picks one candidate: drops the `min_overlap_factor` lowest overlaps, then
/// the `max_load_factor` highest loads, and takes the remaining candidate of
/// maximal overlap, the lowest choice index among equals; when none remains,
/// the first candidate.
pub fn select_candidate(
    bins: Vec<Candidate>,
    min_overlap_factor: usize,
    max_load_factor: usize,
) -> (r: Candidate)
    requires
        bins@.len() > 0,
    ensures
        r == select_spec(bins@, min_overlap_factor as nat, max_load_factor as nat),
{
    let first = bins[0];
    let kept = remove_max_load(remove_min_overlap(bins, min_overlap_factor), max_load_factor);
    if kept.len() == 0 {
        return first;
    }
    let mut best: usize = 0;
    let mut i: usize = 1;
    while i < kept.len()
        invariant
            1 <= i <= kept@.len(),
            best == best_upto(kept@, i as nat),
            best < i,
        decreases kept@.len() - i,
    {
        let a = kept[i];
        let b = kept[best];
        if a.overlap > b.overlap || (a.overlap == b.overlap && a.choice < b.choice) {
            best = i;
        }
        i = i + 1;
    }
    kept[best]
}

} // verus!
