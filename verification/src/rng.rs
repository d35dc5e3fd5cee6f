//! Trusted boundary around the `rand` crate: the thread-local random
//! generator and the few draws the puzzle builder makes from it.
use rand::seq::SliceRandom;
use rand::Rng;
use vstd::prelude::*;

verus! {

#[verifier::external_type_specification]
#[verifier::external_body]
pub struct ExThreadRng(rand::rngs::ThreadRng);

/// Relies on rand::thread_rng: hands out the thread-local generator.
#[verifier::external_body]
pub(crate) fn new_rng() -> rand::rngs::ThreadRng {
    rand::thread_rng()
}

/// Relies on Rng::gen_range: a value uniform in the half-open range
/// `lo..hi`, which must be non-empty (gen_range panics on an empty range).
#[verifier::external_body]
pub(crate) fn gen_range_usize(rng: &mut rand::rngs::ThreadRng, lo: usize, hi: usize) -> (r: usize)
    requires
        lo < hi,
    ensures
        lo <= r < hi,
{
    rng.gen_range(lo..hi)
}

/// Relies on Rng::gen_range: a value uniform in the half-open range
/// `lo..hi`, which must be non-empty (gen_range panics on an empty range).
#[verifier::external_body]
pub(crate) fn gen_range_u8(rng: &mut rand::rngs::ThreadRng, lo: u8, hi: u8) -> (r: u8)
    requires
        lo < hi,
    ensures
        lo <= r < hi,
{
    rng.gen_range(lo..hi)
}

/// Relies on SliceRandom::shuffle: permutes the elements in place, so the
/// multiset of elements (here, of their character sequences) is unchanged.
#[verifier::external_body]
pub(crate) fn shuffle_words(rng: &mut rand::rngs::ThreadRng, words: &mut Vec<String>)
    ensures
        final(words)@.len() == old(words)@.len(),
        crate::words::views_of(final(words)@).to_multiset() == crate::words::views_of(
            old(words)@,
        ).to_multiset(),
{
    words.shuffle(rng);
}

} // verus!
