//! Deterministic hashing of a (keyword, choice) pair onto a bin index.
use sha2::{Digest, Sha256};
use vstd::prelude::*;
use vstd::utf8::encode_utf8;

verus! {

/// The SHA-256 digest of a byte sequence.
pub uninterp spec fn sha256_of(data: Seq<u8>) -> Seq<u8>;

/// Relies on `sha2::Sha256::digest`: the SHA-256 digest of `data`, which is
/// 32 bytes long.
#[verifier::external_body]
fn sha256(data: &[u8]) -> (r: Vec<u8>)
    ensures
        r@ == sha256_of(data@),
        r@.len() == 32,
{
    Sha256::digest(data).to_vec()
}

/// The ASCII decimal rendering of `n`, without leading zeros.
pub open spec fn decimal_digits(n: nat) -> Seq<u8>
    decreases n,
{
    if n < 10 {
        seq![(48 + n) as u8]
    } else {
        decimal_digits(n / 10).push((48 + n % 10) as u8)
    }
}

/// The big-endian value of the first `i` bytes of `s`.
pub open spec fn be_prefix(s: Seq<u8>, i: nat) -> nat
    decreases i,
{
    if i == 0 || i > s.len() {
        0
    } else {
        be_prefix(s, (i - 1) as nat) * 256 + s[i - 1] as nat
    }
}

pub open spec fn pow256(i: nat) -> nat
    decreases i,
{
    if i == 0 {
        1
    } else {
        256 * pow256((i - 1) as nat)
    }
}

/// The bytes hashed for a keyword and a choice: the keyword's UTF-8 encoding
/// followed by the decimal rendering of the choice.
pub open spec fn hash_input(word: Seq<char>, choice: nat) -> Seq<u8> {
    encode_utf8(word) + decimal_digits(choice)
}

/// The hash of a keyword and a choice: the first eight bytes of the SHA-256
/// digest of `hash_input`, read as a big-endian integer.
pub open spec fn spec_hash(word: Seq<char>, choice: nat) -> nat {
    be_prefix(sha256_of(hash_input(word, choice)), 8)
}

/// The bin that a keyword's `choice`-th hash selects among `max_bins` bins.
pub open spec fn bin_of(word: Seq<char>, choice: nat, max_bins: nat) -> nat
    recommends
        max_bins > 0,
{
    spec_hash(word, choice) % max_bins
}

proof fn lemma_be_prefix_bound(s: Seq<u8>, i: nat)
    requires
        i <= s.len(),
    ensures
        be_prefix(s, i) < pow256(i),
    decreases i,
{
    if i > 0 {
        let p = (i - 1) as nat;
        lemma_be_prefix_bound(s, p);
        let v = be_prefix(s, p);
        let b = s[i - 1] as nat;
        let q = pow256(p);
        assert(v * 256 + b < 256 * q) by (nonlinear_arith)
            requires
                v < q,
                b < 256,
        ;
    }
}

/// Appends the decimal rendering of `n` to `out`.
fn push_decimal(n: usize, out: &mut Vec<u8>)
    ensures
        final(out)@ == old(out)@ + decimal_digits(n as nat),
    decreases n,
{
    if n >= 10 {
        push_decimal(n / 10, out);
    }
    out.push((48 + n % 10) as u8);
    assert(final(out)@ =~= old(out)@ + decimal_digits(n as nat));
}

/// Reads the first eight bytes of `bytes` as a big-endian integer.
fn read_be_u64(bytes: &Vec<u8>) -> (r: u64)
    requires
        bytes@.len() >= 8,
    ensures
        r == be_prefix(bytes@, 8),
{
    let mut acc: u64 = 0;
    let mut i: usize = 0;
    while i < 8
        invariant
            i <= 8,
            bytes@.len() >= 8,
            acc == be_prefix(bytes@, i as nat),
        decreases 8 - i,
    {
        proof {
            lemma_be_prefix_bound(bytes@, (i + 1) as nat);
            assert(pow256(8) == 0x1_0000_0000_0000_0000) by {
                reveal_with_fuel(pow256, 9);
            }
            lemma_pow256_monotone((i + 1) as nat, 8);
        }
        acc = acc * 256 + bytes[i] as u64;
        i = i + 1;
    }
    acc
}

proof fn lemma_pow256_monotone(i: nat, j: nat)
    requires
        i <= j,
    ensures
        pow256(i) <= pow256(j),
    decreases j,
{
    if i < j {
        lemma_pow256_monotone(i, (j - 1) as nat);
    }
}

/// Deterministic hash of a keyword combined with a choice index: the first
/// eight bytes of the SHA-256 digest of the keyword followed by the decimal
/// rendering of the choice, read big-endian.
pub fn get_hash(s: &str, n: usize) -> (r: u64)
    ensures
        r == spec_hash(s@, n as nat),
{
    let mut data: Vec<u8> = Vec::new();
    let word = s.as_bytes();
    let mut i: usize = 0;
    while i < word.len()
        invariant
            i <= word@.len(),
            word@ == encode_utf8(s@),
            data@ == word@.subrange(0, i as int),
        decreases word@.len() - i,
    {
        data.push(word[i]);
        i = i + 1;
    }
    push_decimal(n, &mut data);
    assert(data@ =~= hash_input(s@, n as nat));
    let digest = sha256(data.as_slice());
    read_be_u64(&digest)
}

/// The bin index selected by the `choice`-th hash of `word`.
pub fn bin_index(word: &str, choice: usize, max_bins: usize) -> (r: usize)
    requires
        max_bins > 0,
    ensures
        r == bin_of(word@, choice as nat, max_bins as nat),
        r < max_bins,
{
    let h = get_hash(word, choice);
    (h % (max_bins as u64)) as usize
}

} // verus!
