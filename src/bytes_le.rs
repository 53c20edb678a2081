//! Little-endian words inside byte buffers, as payload headers store them.
use vstd::prelude::*;

verus! {

/// The word whose little-endian bytes start at `p` in `d`.
pub open spec fn word_at(d: Seq<u8>, p: int) -> u64 {
    (d[p] as u64) | ((d[p + 1] as u64) << 8u64) | ((d[p + 2] as u64) << 16u64) | ((d[p + 3] as u64)
        << 24u64) | ((d[p + 4] as u64) << 32u64) | ((d[p + 5] as u64) << 40u64) | ((d[p + 6] as u64)
        << 48u64) | ((d[p + 7] as u64) << 56u64)
}

proof fn lemma_bytes_of_word(x: u64)
    ensures
        x == ((x as u8) as u64) | ((((x >> 8u64) as u8) as u64) << 8u64) | ((((x >> 16u64) as u8) as u64)
            << 16u64) | ((((x >> 24u64) as u8) as u64) << 24u64) | ((((x >> 32u64) as u8) as u64)
            << 32u64) | ((((x >> 40u64) as u8) as u64) << 40u64) | ((((x >> 48u64) as u8) as u64)
            << 48u64) | ((((x >> 56u64) as u8) as u64) << 56u64),
{
    assert(x == ((x as u8) as u64) | ((((x >> 8u64) as u8) as u64) << 8u64) | ((((x >> 16u64) as u8) as u64)
        << 16u64) | ((((x >> 24u64) as u8) as u64) << 24u64) | ((((x >> 32u64) as u8) as u64)
        << 32u64) | ((((x >> 40u64) as u8) as u64) << 40u64) | ((((x >> 48u64) as u8) as u64)
        << 48u64) | ((((x >> 56u64) as u8) as u64) << 56u64)) by (bit_vector);
}

/// Writes `x` as eight little-endian bytes at `p`; nothing else in `d` changes.
pub fn write_word(d: &mut Vec<u8>, p: usize, x: u64)
    requires
        p + 8 <= old(d)@.len(),
    ensures
        final(d)@.len() == old(d)@.len(),
        word_at(final(d)@, p as int) == x,
        forall|j: int| 0 <= j < old(d)@.len() && !(p <= j < p + 8) ==> final(d)@[j] == old(d)@[j],
{
    let n: usize = d.len();
    assert(p + 8 <= n);
    d.set(p, #[verifier::truncate] (x as u8));
    d.set(p + 1, #[verifier::truncate] ((x >> 8u64) as u8));
    d.set(p + 2, #[verifier::truncate] ((x >> 16u64) as u8));
    d.set(p + 3, #[verifier::truncate] ((x >> 24u64) as u8));
    d.set(p + 4, #[verifier::truncate] ((x >> 32u64) as u8));
    d.set(p + 5, #[verifier::truncate] ((x >> 40u64) as u8));
    d.set(p + 6, #[verifier::truncate] ((x >> 48u64) as u8));
    d.set(p + 7, #[verifier::truncate] ((x >> 56u64) as u8));
    proof {
        lemma_bytes_of_word(x);
    }
}

/// Reads the little-endian word at `p`.
pub fn read_word(d: &[u8], p: usize) -> (r: u64)
    requires
        p + 8 <= d@.len(),
    ensures
        r == word_at(d@, p as int),
{
    let n: usize = d.len();
    assert(p + 8 <= n);
    (d[p] as u64) | ((d[p + 1] as u64) << 8u64) | ((d[p + 2] as u64) << 16u64) | ((d[p + 3] as u64)
        << 24u64) | ((d[p + 4] as u64) << 32u64) | ((d[p + 5] as u64) << 40u64) | ((d[p + 6] as u64)
        << 48u64) | ((d[p + 7] as u64) << 56u64)
}

} // verus!
