//! The entropy source. Every network owns a `rand::rngs::StdRng`; the
//! few calls into `rand` stand behind trusted wrappers, and everything
//! computed from the raw draws is verified for every value a draw could
//! take.

use vstd::arithmetic::div_mod::lemma_multiply_divide_lt;
use vstd::prelude::*;

verus! {

#[verifier::external_type_specification]
#[verifier::external_body]
pub struct ExStdRng(rand::rngs::StdRng);

/// Relies on `rand::SeedableRng::seed_from_u64` for `rand::rngs::StdRng`:
/// builds a generator from a seed. Nothing is assumed of the stream it
/// will produce.
#[verifier::external_body]
pub(crate) fn seed_rng(seed: u64) -> rand::rngs::StdRng {
    <rand::rngs::StdRng as rand::SeedableRng>::seed_from_u64(seed)
}

/// Relies on `rand::RngCore::next_u32` for `rand::rngs::StdRng`: draws
/// the next word of the stream, advancing the generator. Nothing is
/// assumed of the value drawn.
#[verifier::external_body]
pub(crate) fn rng_next_u32(rng: &mut rand::rngs::StdRng) -> u32 {
    rand::RngCore::next_u32(rng)
}

/// Relies on the `Clone` implementation of `rand::rngs::StdRng`, which
/// duplicates the generator state, so that the copy and the original
/// produce the same stream until one of them is advanced. Nothing is
/// assumed of the copy.
pub assume_specification[ <rand::rngs::StdRng as Clone>::clone ](
    rng: &rand::rngs::StdRng,
) -> rand::rngs::StdRng;

/// Relies on `rand::random`: an unpredictable word for seeding. Nothing
/// is assumed of the value.
#[verifier::external_body]
pub(crate) fn random_u64() -> u64 {
    rand::random::<u64>()
}

/// Draws one uniform sample from the generator and floors
/// `sample * len`, so indices `0 .. len` are (near) equally likely and
/// the result never reaches `len`.
pub fn rand_index(rng: &mut rand::rngs::StdRng, len: usize) -> (i: usize)
    requires
        1 <= len <= 0x8000_0000usize,
    ensures
        i < len,
{
    let draw: u32 = rng_next_u32(rng);
    proof {
        assert((draw as int) * (len as int) < 0x1_0000_0000 * (len as int)
            && 0x1_0000_0000 * (len as int) <= 0x8000_0000_0000_0000) by (nonlinear_arith)
            requires
                draw < 0x1_0000_0000u64,
                1 <= len <= 0x8000_0000usize,
        ;
    }
    let p: u64 = (draw as u64) * (len as u64);
    proof {
        lemma_multiply_divide_lt(p as int, 0x1_0000_0000, len as int);
    }
    let idx: u64 = p / 0x1_0000_0000u64;
    idx as usize
}

/// Draws one uniform fixed-point sample in `[0, 1)`: the next generator
/// word, read as a binary fraction of `2^32`.
pub(crate) fn next_unit_sample(rng: &mut rand::rngs::StdRng) -> (u: i64)
    ensures
        0 <= u < crate::fixed::FX_ONE,
{
    let draw: u32 = rng_next_u32(rng);
    draw as i64
}

} // verus!
