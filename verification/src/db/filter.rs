//! The Bloom filter of the outside crate `bloom`, as far as the datastore
//! uses it.

use bloom::BloomFilter;
use vstd::prelude::*;

verus! {

/// The Bloom filter of the outside crate. Nothing is read from it but through
/// the functions below.
#[verifier::external_type_specification]
#[verifier::external_body]
#[verifier::reject_recursive_types(R)]
#[verifier::reject_recursive_types(S)]
pub struct ExBloomFilter<R, S>(bloom::BloomFilter<R, S>);

/// The keys that the filter accepts: those for which it answers that they may
/// have been inserted.
pub uninterp spec fn bloom_accepts(filter: &BloomFilter) -> Set<u64>;

/// The number of bits with which the filter was made.
pub uninterp spec fn bloom_bits(filter: &BloomFilter) -> nat;

/// Calls `BloomFilter::num_bits`.
///
/// Trusted: the call returns the number of bits of the filter.
#[verifier::external_body]
pub(crate) fn bloom_num_bits(filter: &BloomFilter) -> (bits: usize)
    ensures
        bits == bloom_bits(filter),
{
    filter.num_bits()
}

/// Calls `ASMS::insert` on the filter. A filter without bits is left out: the
/// call would divide by their number.
///
/// Trusted: afterwards the filter accepts `key`, and every key that it
/// accepted before; the number of its bits is as before.
#[verifier::external_body]
pub(crate) fn bloom_insert(filter: &mut BloomFilter, key: u64)
    requires
        bloom_bits(old(filter)) > 0,
    ensures
        bloom_bits(final(filter)) == bloom_bits(old(filter)),
        bloom_accepts(final(filter)).contains(key),
        forall|other: u64| #[trigger]
            bloom_accepts(old(filter)).contains(other) ==> bloom_accepts(final(filter)).contains(
                other,
            ),
{
    bloom::ASMS::insert(filter, &key);
}

/// Calls `ASMS::contains` on the filter. A filter without bits is left out:
/// the call would divide by their number.
///
/// Trusted: the call says whether the filter accepts `key`.
#[verifier::external_body]
pub(crate) fn bloom_contains(filter: &BloomFilter, key: u64) -> (accepted: bool)
    requires
        bloom_bits(filter) > 0,
    ensures
        accepted == bloom_accepts(filter).contains(key),
{
    bloom::ASMS::contains(filter, &key)
}

} // verus!
