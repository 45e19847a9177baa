//! Sets of document identifiers, held as vectors without duplicates.
use vstd::prelude::*;

verus! {

/// `bin` extended by each identifier of `ids` that it does not yet hold, in
/// the order in which they come in `ids`.
pub open spec fn add_ids(bin: Seq<u32>, ids: Seq<u32>) -> Seq<u32>
    decreases ids.len(),
{
    if ids.len() == 0 {
        bin
    } else {
        let prev = add_ids(bin, ids.drop_last());
        if prev.contains(ids.last()) {
            prev
        } else {
            prev.push(ids.last())
        }
    }
}

/// The set of identifiers of a search result, in order of first occurrence.
pub open spec fn id_set(ids: Seq<u32>) -> Seq<u32> {
    add_ids(Seq::empty(), ids)
}

/// How many entries of `contents` are also in `ids`, counted with
/// multiplicity in `contents`.
pub open spec fn shared(contents: Seq<u32>, ids: Seq<u32>) -> nat
    decreases contents.len(),
{
    if contents.len() == 0 {
        0
    } else {
        shared(contents.drop_last(), ids) + if ids.contains(contents.last()) {
            1nat
        } else {
            0nat
        }
    }
}

/// `shared` adds up over a concatenation.
pub proof fn lemma_shared_append(a: Seq<u32>, b: Seq<u32>, ids: Seq<u32>)
    ensures
        shared(a + b, ids) == shared(a, ids) + shared(b, ids),
    decreases b.len(),
{
    if b.len() == 0 {
        assert(a + b =~= a);
    } else {
        assert((a + b).drop_last() =~= a + b.drop_last());
        lemma_shared_append(a, b.drop_last(), ids);
    }
}

/// When every entry of `s` is in `ids`, all of `s` is shared.
pub proof fn lemma_shared_all(s: Seq<u32>, ids: Seq<u32>)
    requires
        forall|k: int| 0 <= k < s.len() ==> ids.contains(#[trigger] s[k]),
    ensures
        shared(s, ids) == s.len(),
    decreases s.len(),
{
    if s.len() > 0 {
        lemma_shared_all(s.drop_last(), ids);
        assert(ids.contains(s[s.len() - 1]));
    }
}

/// Adding identifiers keeps a duplicate-free vector duplicate-free, and its
/// set of elements becomes the union of both sets.
pub proof fn lemma_add_ids(bin: Seq<u32>, ids: Seq<u32>)
    requires
        bin.no_duplicates(),
    ensures
        add_ids(bin, ids).no_duplicates(),
        add_ids(bin, ids).to_set() == bin.to_set().union(ids.to_set()),
        add_ids(bin, ids).len() >= bin.len(),
    decreases ids.len(),
{
    if ids.len() > 0 {
        let rest = ids.drop_last();
        lemma_add_ids(bin, rest);
        let prev = add_ids(bin, rest);
        let x = ids.last();
        assert(ids =~= rest.push(x));
        assert(ids.to_set() =~= rest.to_set().insert(x)) by {
            rest.lemma_push_to_set_commute(x);
        }
        if !prev.contains(x) {
            prev.lemma_push_to_set_commute(x);
            assert(prev.push(x).no_duplicates()) by {
                assert forall|i: int, j: int|
                    0 <= i < prev.push(x).len() && 0 <= j < prev.push(x).len() && i != j implies
                    prev.push(x)[i] != prev.push(x)[j] by {
                    if i < prev.len() && j < prev.len() {
                    } else if i == prev.len() {
                        assert(prev[j] == prev.push(x)[j]);
                    } else {
                        assert(prev[i] == prev.push(x)[i]);
                    }
                }
            }
        }
        assert(add_ids(bin, ids).to_set() =~= bin.to_set().union(ids.to_set()));
    }
}

/// Whether `v` holds `x`.
pub fn contains_id(v: &Vec<u32>, x: u32) -> (r: bool)
    ensures
        r == v@.contains(x),
{
    let mut i: usize = 0;
    while i < v.len()
        invariant
            i <= v@.len(),
            forall|j: int| 0 <= j < i ==> v@[j] != x,
        decreases v@.len() - i,
    {
        if v[i] == x {
            return true;
        }
        i = i + 1;
    }
    false
}

/// Extends `bin` by the identifiers of `ids` that it does not hold yet.
pub fn add_ids_into(bin: &mut Vec<u32>, ids: &Vec<u32>)
    ensures
        final(bin)@ == add_ids(old(bin)@, ids@),
{
    let ghost start = bin@;
    let mut i: usize = 0;
    while i < ids.len()
        invariant
            i <= ids@.len(),
            bin@ == add_ids(start, ids@.subrange(0, i as int)),
        decreases ids@.len() - i,
    {
        let x = ids[i];
        assert(ids@.subrange(0, i + 1).drop_last() =~= ids@.subrange(0, i as int));
        if !contains_id(bin, x) {
            bin.push(x);
        }
        i = i + 1;
    }
    assert(ids@.subrange(0, ids@.len() as int) =~= ids@);
}

/// The identifiers of a search result without repetitions, in order of
/// first occurrence.
pub fn dedup_ids(ids: &Vec<u32>) -> (r: Vec<u32>)
    ensures
        r@ == id_set(ids@),
        r@.no_duplicates(),
        r@.to_set() == ids@.to_set(),
{
    let mut r: Vec<u32> = Vec::new();
    add_ids_into(&mut r, ids);
    proof {
        lemma_add_ids(Seq::empty(), ids@);
        assert(Seq::<u32>::empty().to_set() =~= Set::empty());
        assert(Set::<u32>::empty().union(ids@.to_set()) =~= ids@.to_set());
    }
    r
}

/// How many entries of `contents` are also in `ids`.
pub fn count_shared(contents: &Vec<u32>, ids: &Vec<u32>) -> (r: usize)
    ensures
        r == shared(contents@, ids@),
{
    let mut count: usize = 0;
    let mut i: usize = 0;
    while i < contents.len()
        invariant
            i <= contents@.len(),
            count <= i,
            count == shared(contents@.subrange(0, i as int), ids@),
        decreases contents@.len() - i,
    {
        assert(contents@.subrange(0, i + 1).drop_last() =~= contents@.subrange(0, i as int));
        if contains_id(ids, contents[i]) {
            count = count + 1;
        }
        i = i + 1;
    }
    assert(contents@.subrange(0, contents@.len() as int) =~= contents@);
    count
}

} // verus!
