//! The probabilistic membership filter of the read path.
//!
//! The filter itself comes from the `bloomfx` crate: a bit vector indexed by
//! repeated deterministic hashing.  What the library relies on is stated
//! here and nowhere else: a fresh filter holds no keys, inserting adds a
//! key and never clears a bit, and a lookup never answers `false` for a key
//! that was inserted — false positives are possible, false negatives are
//! not.

use vstd::prelude::*;

verus! {

#[verifier::external_type_specification]
#[verifier::external_body]
#[verifier::reject_recursive_types(K)]
pub struct ExBloomFilter<K: std::hash::Hash>(bloomfx::BloomFilter<K>);

/// The set of keys that have been inserted into the filter.
pub uninterp spec fn bloom_keys(b: bloomfx::BloomFilter<Vec<u8>>) -> Set<Seq<u8>>;

/// The number of bits the filter was created over.  Hash indices are reduced
/// modulo this number, so it must be positive for any insert or lookup.
pub uninterp spec fn bloom_bits(b: bloomfx::BloomFilter<Vec<u8>>) -> usize;

/// Relies on bloomfx::BloomFilter::new: a fresh filter starts with every bit
/// clear and remembers the bit count it was given.
#[verifier::external_body]
pub(crate) fn bloom_new(n_bits: usize, k: usize) -> (r: bloomfx::BloomFilter<Vec<u8>>)
    requires
        n_bits > 0,
    ensures
        bloom_keys(r) == Set::<Seq<u8>>::empty(),
        bloom_bits(r) == n_bits,
{
    bloomfx::BloomFilter::new(n_bits, k)
}

/// Relies on bloomfx::BloomFilter::insert: it sets the key's hash-indexed
/// bits and clears none, so the filter's key set only grows.
#[verifier::external_body]
pub(crate) fn bloom_insert(b: &mut bloomfx::BloomFilter<Vec<u8>>, key: Vec<u8>)
    requires
        bloom_bits(*old(b)) > 0,
    ensures
        bloom_keys(*final(b)) == bloom_keys(*old(b)).insert(key@),
        bloom_bits(*final(b)) == bloom_bits(*old(b)),
{
    b.insert(key)
}

/// Relies on bloomfx::BloomFilter::check: the hashing is deterministic and
/// bits are never cleared, so a key that was inserted always answers `true`.
/// Nothing is promised of keys never inserted: a collision may answer
/// `true` for them too.
#[verifier::external_body]
pub(crate) fn bloom_check(b: &bloomfx::BloomFilter<Vec<u8>>, key: Vec<u8>) -> (r: bool)
    requires
        bloom_bits(*b) > 0,
    ensures
        bloom_keys(*b).contains(key@) ==> r,
{
    b.check(key)
}

} // verus!
