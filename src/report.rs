//! Figures about bin-size distributions, computed exactly in integers for
//! display by the caller.
use vstd::prelude::*;
use vstd::arithmetic::div_mod::lemma_fundamental_div_mod;
use vstd::relations::{sorted_by, total_ordering};
use vstd::seq_lib::{lemma_fold_left_permutation, lemma_sorted_unique, to_multiset_len};

verus! {

pub open spec fn ascending() -> spec_fn(usize, usize) -> bool {
    |a: usize, b: usize| a <= b
}

pub open spec fn descending() -> spec_fn(usize, usize) -> bool {
    |a: usize, b: usize| a >= b
}

/// The sum of a sequence of sizes.
pub open spec fn sum_of(s: Seq<usize>) -> int {
    s.fold_left(0int, |acc: int, x: usize| acc + x)
}

/// The size of each bin.
pub open spec fn sizes_of(bins: Seq<Seq<u32>>) -> Seq<usize> {
    Seq::new(bins.len(), |i: int| bins[i].len() as usize)
}

/// `s` followed by zeros up to length `n`.
pub open spec fn padded(s: Seq<usize>, n: nat) -> Seq<usize> {
    s + Seq::new((n - s.len()) as nat, |i: int| 0usize)
}

/// The difference of the first `i` entries' sums.
pub open spec fn running(a: Seq<usize>, b: Seq<usize>, i: nat) -> int {
    sum_of(a.take(i as int)) - sum_of(b.take(i as int))
}

pub open spec fn abs(x: int) -> nat {
    if x < 0 {
        (-x) as nat
    } else {
        x as nat
    }
}

/// The earth mover's work between two distributions over their first `i`
/// positions: the sum of the absolute running differences.
pub open spec fn emd_work(a: Seq<usize>, b: Seq<usize>, i: nat) -> nat
    decreases i,
{
    if i == 0 {
        0
    } else {
        emd_work(a, b, (i - 1) as nat) + abs(running(a, b, i))
    }
}

/// The two sorted distributions that the earth mover's distance compares:
/// each one's bin sizes in ascending order, padded with zeros to the longer
/// length.
pub open spec fn emd_inputs(bins1: Seq<Seq<u32>>, bins2: Seq<Seq<u32>>) -> (Seq<usize>, Seq<usize>) {
    let n = if bins1.len() >= bins2.len() {
        bins1.len()
    } else {
        bins2.len()
    };
    (
        padded(sizes_of(bins1).sort_by(ascending()), n),
        padded(sizes_of(bins2).sort_by(ascending()), n),
    )
}

proof fn lemma_orderings()
    ensures
        total_ordering(ascending()),
        total_ordering(descending()),
{
}

proof fn lemma_sum_push(s: Seq<usize>, x: usize)
    ensures
        sum_of(s.push(x)) == sum_of(s) + x,
{
    assert(s.push(x).drop_last() =~= s);
}

proof fn lemma_sum_take_step(s: Seq<usize>, i: int)
    requires
        0 <= i < s.len(),
    ensures
        sum_of(s.take(i + 1)) == sum_of(s.take(i)) + s[i],
{
    assert(s.take(i + 1) =~= s.take(i).push(s[i]));
    lemma_sum_push(s.take(i), s[i]);
}

proof fn lemma_sum_take_bound(s: Seq<usize>, i: int)
    requires
        0 <= i <= s.len(),
    ensures
        0 <= sum_of(s.take(i)) <= sum_of(s),
    decreases s.len() - i,
{
    if i == s.len() {
        assert(s.take(i) =~= s);
        lemma_sum_nonneg(s);
    } else {
        lemma_sum_take_step(s, i);
        lemma_sum_take_bound(s, i + 1);
        lemma_sum_nonneg(s.take(i));
    }
}

proof fn lemma_sum_nonneg(s: Seq<usize>)
    ensures
        sum_of(s) >= 0,
    decreases s.len(),
{
    if s.len() > 0 {
        lemma_sum_nonneg(s.drop_last());
    }
}

/// Sums do not depend on order.
proof fn lemma_sum_permutation(s: Seq<usize>, t: Seq<usize>)
    requires
        s.to_multiset() == t.to_multiset(),
    ensures
        sum_of(s) == sum_of(t),
{
    let f = |acc: int, x: usize| acc + x;
    assert forall|x: usize, y: usize, v: int| #[trigger] f(f(v, x), y) == f(f(v, y), x) by {}
    lemma_fold_left_permutation(s, t, f, 0int);
}

proof fn lemma_sum_padded(s: Seq<usize>, n: nat)
    requires
        s.len() <= n,
    ensures
        sum_of(padded(s, n)) == sum_of(s),
    decreases n - s.len(),
{
    if s.len() < n {
        lemma_sum_padded(s, (n - 1) as nat);
        assert(padded(s, n) =~= padded(s, (n - 1) as nat).push(0usize));
        lemma_sum_push(padded(s, (n - 1) as nat), 0usize);
    } else {
        assert(padded(s, n) =~= s);
    }
}

/// Relies on `slice::sort_unstable`: the same values, in ascending order.
#[verifier::external_body]
fn sort_ascending(v: &mut Vec<usize>)
    ensures
        final(v)@.to_multiset() == old(v)@.to_multiset(),
        sorted_by(final(v)@, ascending()),
{
    v.sort_unstable();
}

/// The size of each bin, in bin order.
fn bin_sizes(bins: &Vec<Vec<u32>>) -> (r: Vec<usize>)
    ensures
        r@ == sizes_of(bins.deep_view()),
{
    let mut sizes: Vec<usize> = Vec::new();
    let mut i: usize = 0;
    while i < bins.len()
        invariant
            i <= bins@.len(),
            sizes@ =~= sizes_of(bins.deep_view()).take(i as int),
        decreases bins@.len() - i,
    {
        assert(bins.deep_view()[i as int].len() == bins@[i as int]@.len());
        sizes.push(bins[i].len());
        i = i + 1;
        assert(sizes@ =~= sizes_of(bins.deep_view()).take(i as int));
    }
    sizes
}

/// The bin sizes in ascending order.
fn sorted_sizes(bins: &Vec<Vec<u32>>) -> (r: Vec<usize>)
    ensures
        r@ == sizes_of(bins.deep_view()).sort_by(ascending()),
        sum_of(r@) == sum_of(sizes_of(bins.deep_view())),
        r@.len() == bins@.len(),
{
    let mut sizes = bin_sizes(bins);
    let ghost unsorted = sizes@;
    sort_ascending(&mut sizes);
    proof {
        lemma_orderings();
        unsorted.lemma_sort_by_ensures(ascending());
        lemma_sorted_unique(sizes@, unsorted.sort_by(ascending()), ascending());
        lemma_sum_permutation(sizes@, unsorted);
        to_multiset_len(sizes@);
        to_multiset_len(unsorted);
    }
    sizes
}

/// Appends zeros to `v` up to length `n`.
fn pad_to(v: &mut Vec<usize>, n: usize)
    requires
        old(v)@.len() <= n,
    ensures
        final(v)@ == padded(old(v)@, n as nat),
{
    let ghost start = v@;
    while v.len() < n
        invariant
            start.len() <= v@.len() <= n,
            v@ =~= padded(start, v@.len() as nat),
        decreases n - v@.len(),
    {
        v.push(0);
        assert(v@ =~= padded(start, v@.len() as nat));
    }
}

/// The sum of the bin sizes.
fn total_size(bins: &Vec<Vec<u32>>) -> (r: usize)
    requires
        sum_of(sizes_of(bins.deep_view())) <= usize::MAX,
    ensures
        r == sum_of(sizes_of(bins.deep_view())),
{
    let sizes = bin_sizes(bins);
    let mut total: usize = 0;
    let mut i: usize = 0;
    while i < sizes.len()
        invariant
            i <= sizes@.len(),
            sum_of(sizes@) <= usize::MAX,
            total == sum_of(sizes@.take(i as int)),
        decreases sizes@.len() - i,
    {
        proof {
            lemma_sum_take_step(sizes@, i as int);
            lemma_sum_take_bound(sizes@, i + 1);
        }
        total = total + sizes[i];
        i = i + 1;
    }
    assert(sizes@.take(sizes@.len() as int) =~= sizes@);
    total
}

/// The two terms of the earth mover's distance between the size
/// distributions of two sets of bins: the work (numerator) and the larger of
/// the two totals (denominator).
pub fn emd_terms(bins1: &Vec<Vec<u32>>, bins2: &Vec<Vec<u32>>) -> (r: (u128, usize))
    requires
        sum_of(sizes_of(bins1.deep_view())) <= usize::MAX,
        sum_of(sizes_of(bins2.deep_view())) <= usize::MAX,
    ensures
        ({
            let (a, b) = emd_inputs(bins1.deep_view(), bins2.deep_view());
            let t1 = sum_of(sizes_of(bins1.deep_view()));
            let t2 = sum_of(sizes_of(bins2.deep_view()));
            &&& r.0 == emd_work(a, b, a.len())
            &&& r.1 == if t1 >= t2 {
                t1
            } else {
                t2
            }
        }),
{
    let mut dist1 = sorted_sizes(bins1);
    let mut dist2 = sorted_sizes(bins2);
    let n = if bins1.len() >= bins2.len() {
        bins1.len()
    } else {
        bins2.len()
    };
    let ghost s1 = dist1@;
    let ghost s2 = dist2@;
    pad_to(&mut dist1, n);
    pad_to(&mut dist2, n);
    proof {
        lemma_sum_padded(s1, n as nat);
        lemma_sum_padded(s2, n as nat);
    }
    let ghost a = dist1@;
    let ghost b = dist2@;
    let mut sum1: usize = 0;
    let mut sum2: usize = 0;
    let mut work: u128 = 0;
    let mut i: usize = 0;
    while i < n
        invariant
            i <= n,
            a == dist1@,
            b == dist2@,
            a.len() == n,
            b.len() == n,
            sum_of(a) <= usize::MAX,
            sum_of(b) <= usize::MAX,
            sum1 == sum_of(a.take(i as int)),
            sum2 == sum_of(b.take(i as int)),
            work == emd_work(a, b, i as nat),
            work <= i * (usize::MAX as int),
        decreases n - i,
    {
        proof {
            lemma_sum_take_step(a, i as int);
            lemma_sum_take_step(b, i as int);
            lemma_sum_take_bound(a, i + 1);
            lemma_sum_take_bound(b, i + 1);
        }
        sum1 = sum1 + dist1[i];
        sum2 = sum2 + dist2[i];
        let diff: u128 = if sum1 >= sum2 {
            (sum1 - sum2) as u128
        } else {
            (sum2 - sum1) as u128
        };
        proof {
            let m = usize::MAX as int;
            let w = work as int;
            let k = i as int;
            assert(w + diff <= (k + 1) * m) by (nonlinear_arith)
                requires
                    w <= k * m,
                    diff <= m,
            ;
            assert((k + 1) * m <= m * m) by (nonlinear_arith)
                requires
                    k + 1 <= m,
                    m >= 0,
            ;
            assert(m * m < 0x1_0000_0000_0000_0000_0000_0000_0000_0000) by (nonlinear_arith)
                requires
                    m < 0x1_0000_0000_0000_0000,
                    m >= 0,
            ;
        }
        work = work + diff;
        i = i + 1;
    }
    let t1 = total_size(bins1);
    let t2 = total_size(bins2);
    let scale = if t1 >= t2 {
        t1
    } else {
        t2
    };
    (work, scale)
}

/// The figures of a comparison of two bin-size distributions.
#[derive(Clone, Copy, Debug, PartialEq, Eq, Structural)]
pub struct DistributionComparison {
    pub total_items1: usize,
    pub num_bins1: usize,
    pub total_items2: usize,
    pub num_bins2: usize,
    /// Numerator of the earth mover's distance.
    pub emd_work: u128,
    /// Denominator of the earth mover's distance: the larger total.
    pub emd_scale: usize,
}

/// Gathers what a comparison of two bin distributions prints: each one's
/// total number of items and number of bins (whose quotient is its average
/// bin size), and the two terms of the earth mover's distance between them.
pub fn print_distribution_comparison(bins1: &Vec<Vec<u32>>, bins2: &Vec<Vec<u32>>) -> (r:
    DistributionComparison)
    requires
        sum_of(sizes_of(bins1.deep_view())) <= usize::MAX,
        sum_of(sizes_of(bins2.deep_view())) <= usize::MAX,
    ensures
        r.total_items1 == sum_of(sizes_of(bins1.deep_view())),
        r.num_bins1 == bins1@.len(),
        r.total_items2 == sum_of(sizes_of(bins2.deep_view())),
        r.num_bins2 == bins2@.len(),
        ({
            let (a, b) = emd_inputs(bins1.deep_view(), bins2.deep_view());
            r.emd_work == emd_work(a, b, a.len())
        }),
        r.emd_scale == if r.total_items1 >= r.total_items2 {
            r.total_items1
        } else {
            r.total_items2
        },
{
    let (work, scale) = emd_terms(bins1, bins2);
    DistributionComparison {
        total_items1: total_size(bins1),
        num_bins1: bins1.len(),
        total_items2: total_size(bins2),
        num_bins2: bins2.len(),
        emd_work: work,
        emd_scale: scale,
    }
}

/// The sums of consecutive groups of `w` entries of `s`; the last group may
/// be shorter.
pub open spec fn group_sums(s: Seq<usize>, w: nat) -> Seq<int>
    decreases s.len(),
{
    if s.len() == 0 || w == 0 {
        Seq::empty()
    } else if s.len() <= w {
        seq![sum_of(s)]
    } else {
        seq![sum_of(s.take(w as int))] + group_sums(s.skip(w as int), w)
    }
}

/// How many of `n` bins go into one group so that at most `granularity`
/// groups remain: `n / granularity` rounded up, or all of them when
/// `granularity` is zero.
pub open spec fn group_width(n: nat, granularity: nat) -> nat {
    if granularity == 0 {
        n
    } else {
        n / granularity + if n % granularity != 0 {
            1nat
        } else {
            0nat
        }
    }
}

/// The bin sizes that a histogram shows, largest first when `sorted`.
pub open spec fn histogram_input(bins: Seq<Seq<u32>>, sorted: bool) -> Seq<usize> {
    if sorted {
        sizes_of(bins).sort_by(descending())
    } else {
        sizes_of(bins)
    }
}

proof fn lemma_sum_split(s: Seq<usize>, i: int, j: int)
    requires
        0 <= i <= j <= s.len(),
    ensures
        sum_of(s.take(j)) == sum_of(s.take(i)) + sum_of(s.subrange(i, j)),
    decreases j - i,
{
    if i == j {
        assert(s.subrange(i, j) =~= Seq::<usize>::empty());
    } else {
        lemma_sum_split(s, i, j - 1);
        lemma_sum_take_step(s, j - 1);
        assert(s.subrange(i, j) =~= s.subrange(i, j - 1).push(s[j - 1]));
        lemma_sum_push(s.subrange(i, j - 1), s[j - 1]);
    }
}

/// The bin sizes in descending order.
fn sizes_descending(bins: &Vec<Vec<u32>>) -> (r: Vec<usize>)
    ensures
        r@ == sizes_of(bins.deep_view()).sort_by(descending()),
        sum_of(r@) == sum_of(sizes_of(bins.deep_view())),
        r@.len() == bins@.len(),
{
    let asc = sorted_sizes(bins);
    let ghost sizes = sizes_of(bins.deep_view());
    let mut desc: Vec<usize> = Vec::new();
    let mut i: usize = asc.len();
    while i > 0
        invariant
            i <= asc@.len(),
            desc@ =~= asc@.reverse().take((asc@.len() - i) as int),
        decreases i,
    {
        i = i - 1;
        desc.push(asc[i]);
        assert(desc@ =~= asc@.reverse().take((asc@.len() - i) as int));
    }
    proof {
        assert(desc@ =~= asc@.reverse());
        lemma_orderings();
        asc@.lemma_reverse_to_multiset();
        sizes.lemma_sort_by_ensures(ascending());
        sizes.lemma_sort_by_ensures(descending());
        assert(sorted_by(desc@, descending())) by {
            assert forall|x: int, y: int| 0 <= x < y < desc@.len() implies #[trigger] (descending())(
                desc@[x],
                desc@[y],
            ) by {
                let n = asc@.len() as int;
                assert((ascending())(asc@[n - 1 - y], asc@[n - 1 - x]));
            }
        }
        lemma_sorted_unique(desc@, sizes.sort_by(descending()), descending());
        lemma_sum_permutation(desc@, sizes);
    }
    desc
}

/// Bin counts for a histogram of bin fullness: the bin sizes (largest first
/// when `sorted`) summed in consecutive groups of `ceil(bins / granularity)`
/// bins, so that at most `granularity` groups remain (one group when
/// `granularity` is zero).
pub fn histogram_counts(bins: &Vec<Vec<u32>>, sorted: bool, granularity: usize) -> (r: Vec<usize>)
    requires
        bins@.len() > 0,
        sum_of(sizes_of(bins.deep_view())) <= usize::MAX,
    ensures
        r@.map_values(|x: usize| x as int) == group_sums(
            histogram_input(bins.deep_view(), sorted),
            group_width(bins@.len() as nat, granularity as nat),
        ),
{
    let d = if sorted {
        sizes_descending(bins)
    } else {
        bin_sizes(bins)
    };
    let n = d.len();
    assert(n == bins@.len());
    let w = if granularity == 0 {
        n
    } else {
        let q = n / granularity;
        proof {
            lemma_fundamental_div_mod(n as int, granularity as int);
            let g = granularity as int;
            let qq = q as int;
            let m = (n % granularity) as int;
            assert(m != 0 ==> qq < n) by (nonlinear_arith)
                requires
                    n == g * qq + m,
                    g >= 1,
                    qq >= 0,
                    m >= 0,
            ;
            assert(m == 0 ==> qq > 0) by (nonlinear_arith)
                requires
                    n == g * qq + m,
                    g >= 1,
                    qq >= 0,
                    n > 0,
            ;
        }
        if n % granularity != 0 {
            q + 1
        } else {
            q
        }
    };
    assert(w == group_width(n as nat, granularity as nat));
    let ghost ds = d@;
    assert(ds.skip(0) =~= ds);
    let mut groups: Vec<usize> = Vec::new();
    assert(groups@.map_values(|x: usize| x as int) + group_sums(ds.skip(0), w as nat) =~= group_sums(
        ds,
        w as nat,
    ));
    let mut start: usize = 0;
    while start < n
        invariant
            start <= n,
            n == ds.len(),
            ds == d@,
            w > 0,
            sum_of(ds) <= usize::MAX,
            groups@.map_values(|x: usize| x as int) + group_sums(ds.skip(start as int), w as nat)
                == group_sums(ds, w as nat),
        decreases n - start,
    {
        let end = if n - start <= w {
            n
        } else {
            start + w
        };
        let mut acc: usize = 0;
        let mut j: usize = start;
        while j < end
            invariant
                start <= j <= end <= n,
                n == ds.len(),
                ds == d@,
                sum_of(ds) <= usize::MAX,
                acc == sum_of(ds.subrange(start as int, j as int)),
            decreases end - j,
        {
            proof {
                assert(ds.subrange(start as int, j + 1) =~= ds.subrange(start as int, j as int).push(
                    ds[j as int],
                ));
                lemma_sum_push(ds.subrange(start as int, j as int), ds[j as int]);
                lemma_sum_split(ds, start as int, j + 1);
                lemma_sum_take_bound(ds, j + 1);
                lemma_sum_take_bound(ds, start as int);
            }
            acc = acc + d[j];
            j = j + 1;
        }
        proof {
            let rest = ds.skip(start as int);
            if n - start <= w {
                assert(rest =~= ds.subrange(start as int, end as int));
                assert(ds.skip(end as int) =~= Seq::<usize>::empty());
            } else {
                assert(rest.take(w as int) =~= ds.subrange(start as int, end as int));
                assert(rest.skip(w as int) =~= ds.skip(end as int));
            }
        }
        let ghost before = groups@.map_values(|x: usize| x as int);
        groups.push(acc);
        assert(groups@.map_values(|x: usize| x as int) =~= before.push(acc as int));
        start = end;
    }
    assert(ds.skip(n as int) =~= Seq::<usize>::empty());
    assert(groups@.map_values(|x: usize| x as int) + Seq::<int>::empty() =~= groups@.map_values(
        |x: usize| x as int,
    ));
    groups
}

} // verus!
