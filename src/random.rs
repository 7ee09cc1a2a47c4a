//! The entropy source and the shuffling that the generators rely on.
use rand::seq::SliceRandom;
use rand::SeedableRng;
use vstd::prelude::*;

verus! {

#[verifier::external_type_specification]
#[verifier::external_body]
pub struct ExGetrandomError(getrandom::Error);

#[verifier::external_type_specification]
#[verifier::external_body]
pub struct ExSmallRng(rand::rngs::SmallRng);

/// Relies on getrandom::getrandom: fills the buffer with bytes from the operating
/// system's entropy source, or fails; the buffer keeps its length either way.
#[verifier::external_body]
pub(crate) fn fill_random(buf: &mut Vec<u8>) -> (r: Result<(), getrandom::Error>)
    ensures
        final(buf)@.len() == old(buf)@.len(),
{
    getrandom::getrandom(buf.as_mut_slice())
}

/// Relies on rand's `SeedableRng::seed_from_u64` for `SmallRng`: a generator
/// seeded from `seed`.
#[verifier::external_body]
pub(crate) fn small_rng_from_seed(seed: u64) -> (r: rand::rngs::SmallRng) {
    rand::rngs::SmallRng::seed_from_u64(seed)
}

/// Relies on rand's `SliceRandom::shuffle`: it only swaps elements, so the result
/// is a permutation of the input.
#[verifier::external_body]
pub(crate) fn shuffle_edges(edges: &mut Vec<(usize, usize)>, rng: &mut rand::rngs::SmallRng)
    ensures
        final(edges)@.to_multiset() == old(edges)@.to_multiset(),
{
    edges.shuffle(rng)
}

/// The number the bytes spell with the first byte least significant.
pub open spec fn le_value(bytes: Seq<u8>) -> nat
    decreases bytes.len(),
{
    if bytes.len() == 0 {
        0
    } else {
        bytes[0] as nat + 256 * le_value(bytes.drop_first())
    }
}

/// `256` to the power `n`.
pub open spec fn pow256(n: nat) -> nat
    decreases n,
{
    if n == 0 {
        1
    } else {
        256 * pow256((n - 1) as nat)
    }
}

proof fn lemma_le_value_bound(bytes: Seq<u8>)
    ensures
        le_value(bytes) < pow256(bytes.len()),
    decreases bytes.len(),
{
    if bytes.len() > 0 {
        lemma_le_value_bound(bytes.drop_first());
    }
}

/// The seed that eight bytes give, read little-endian as `u64::from_le_bytes`
/// reads them.
pub fn seed_from_bytes(bytes: &Vec<u8>) -> (r: u64)
    requires
        bytes@.len() == 8,
    ensures
        r as nat == le_value(bytes@),
{
    proof {
        assert(pow256(8) == 0x1_0000_0000_0000_0000) by {
            reveal_with_fuel(pow256, 9);
        }
    }
    let mut seed: u64 = 0;
    let mut k: usize = 8;
    proof {
        assert(bytes@.subrange(8, 8) =~= Seq::<u8>::empty());
    }
    while k > 0
        invariant
            k <= 8,
            bytes@.len() == 8,
            pow256(8) == 0x1_0000_0000_0000_0000,
            seed as nat == le_value(bytes@.subrange(k as int, 8)),
        decreases k,
    {
        let ghost rest = bytes@.subrange(k as int, 8);
        let ghost next = bytes@.subrange(k - 1, 8);
        proof {
            assert(next.drop_first() =~= rest);
            lemma_le_value_bound(rest);
            assert(pow256(rest.len()) * 256 <= pow256(8)) by {
                reveal_with_fuel(pow256, 9);
            }
        }
        seed = seed * 256 + bytes[k - 1] as u64;
        k = k - 1;
    }
    proof {
        assert(bytes@.subrange(0, 8) =~= bytes@);
    }
    seed
}

/// A seed of eight bytes from the entropy source; zero bytes stand in where they
/// could not be drawn.
pub(crate) fn random_seed() -> (r: u64) {
    let mut bytes: Vec<u8> = vec![0u8; 8];
    match fill_random(&mut bytes) {
        Ok(()) => {},
        Err(_) => {
            bytes = vec![0u8; 8];
        },
    }
    seed_from_bytes(&bytes)
}

/// The bit that a one-byte draw gives: the byte's lowest bit, or `false` where the
/// draw failed.
pub fn bit_of_draw(draw: Option<u8>) -> (r: bool)
    ensures
        r == (draw is Some && draw->Some_0 % 2 == 1),
{
    match draw {
        Some(b) => b % 2 == 1,
        None => false,
    }
}

/// One random bit from the entropy source, as `bit_of_draw` takes it from one
/// drawn byte.
pub fn random_bool() -> (r: bool) {
    let mut bytes: Vec<u8> = vec![0u8; 1];
    let draw = match fill_random(&mut bytes) {
        Ok(()) => Some(bytes[0]),
        Err(_) => None,
    };
    bit_of_draw(draw)
}

} // verus!
