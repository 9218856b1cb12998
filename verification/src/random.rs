//! The random number generator, and the draws that the samplers make.
use rand::rngs::SmallRng;
use rand::Rng;
use vstd::prelude::*;

verus! {

/// The generator `rand::rngs::SmallRng`, whose state stays hidden.
#[verifier::external_type_specification]
#[verifier::external_body]
pub struct ExSmallRng(SmallRng);

/// Calls `Rng::gen_range` on the half-open range `0..n`. The range must
/// not be empty; the value drawn lies in it. Nothing else is known of the
/// value.
#[verifier::external_body]
pub(crate) fn below(rng: &mut SmallRng, n: usize) -> (r: usize)
    requires
        n > 0,
    ensures
        r < n,
{
    rng.gen_range(0..n)
}

/// Calls `Rng::fill` on the bytes of `dest`. Every byte is overwritten with
/// a random one; the length stays.
#[verifier::external_body]
pub(crate) fn fill_bytes(rng: &mut SmallRng, dest: &mut Vec<u8>)
    ensures
        final(dest)@.len() == old(dest)@.len(),
{
    rng.fill(&mut dest[..]);
}

/// Calls `Rng::fill` on the words of `dest`. Every word is overwritten with
/// a random one; the length stays.
#[verifier::external_body]
pub(crate) fn fill_words(rng: &mut SmallRng, dest: &mut Vec<u32>)
    ensures
        final(dest)@.len() == old(dest)@.len(),
{
    rng.fill(&mut dest[..]);
}

} // verus!
