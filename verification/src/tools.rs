use rand::distr::Uniform;
use rand::Rng;
use vstd::prelude::*;

verus! {

/// The increment that SplitMix64 adds to its state (the golden-ratio constant).
pub const SPLITMIX_GAMMA: u64 = 0x9E3779B97F4A7C15;

/// First multiplier of the SplitMix64 output mix.
pub const SPLITMIX_MUL1: u64 = 0xBF58476D1CE4E5B9;

/// Second multiplier of the SplitMix64 output mix.
pub const SPLITMIX_MUL2: u64 = 0x94D049BB133111EB;

/// Arithmetic modulo 2^64, as the wrapping operations of `u64` compute it.
pub open spec fn mod64(v: int) -> u64 {
    (v % 0x1_0000_0000_0000_0000) as u64
}

/// One SplitMix64 step: add the gamma, then xor-shift-multiply twice and
/// xor-shift once more.
pub open spec fn splitmix64_spec(x: u64) -> u64 {
    let a = mod64(x + SPLITMIX_GAMMA);
    let b = mod64((a ^ (a >> 30u64)) * SPLITMIX_MUL1);
    let c = mod64((b ^ (b >> 27u64)) * SPLITMIX_MUL2);
    c ^ (c >> 31u64)
}

proof fn lemma_xorshift_injective(a: u64, b: u64)
    by (bit_vector)
    requires
        a ^ (a >> 30u64) == b ^ (b >> 30u64) || a ^ (a >> 27u64) == b ^ (b >> 27u64)
            || a ^ (a >> 31u64) == b ^ (b >> 31u64),
    ensures
        a == b,
{
}

proof fn lemma_mul1_injective(a: u64, b: u64)
    by (bit_vector)
    requires
        ((a * 0xBF58476D1CE4E5B9u64) % 0x1_0000_0000_0000_0000) as u64 == ((b * 0xBF58476D1CE4E5B9u64) % 0x1_0000_0000_0000_0000) as u64,
    ensures
        a == b,
{
}

proof fn lemma_mul2_injective(a: u64, b: u64)
    by (bit_vector)
    requires
        ((a * 0x94D049BB133111EBu64) % 0x1_0000_0000_0000_0000) as u64 == ((b * 0x94D049BB133111EBu64) % 0x1_0000_0000_0000_0000) as u64,
    ensures
        a == b,
{
}

proof fn lemma_add_gamma_injective(a: u64, b: u64)
    by (bit_vector)
    requires
        ((a + 0x9E3779B97F4A7C15u64) % 0x1_0000_0000_0000_0000) as u64 == ((b + 0x9E3779B97F4A7C15u64) % 0x1_0000_0000_0000_0000) as u64,
    ensures
        a == b,
{
}

/// SplitMix64 is one-to-one: distinct inputs give distinct outputs, so
/// distinct seed codes expand to distinct master seeds.
pub proof fn lemma_splitmix64_injective(x: u64, y: u64)
    requires
        splitmix64_spec(x) == splitmix64_spec(y),
    ensures
        x == y,
{
    let ax = mod64(x + SPLITMIX_GAMMA);
    let ay = mod64(y + SPLITMIX_GAMMA);
    let bx = mod64((ax ^ (ax >> 30u64)) * SPLITMIX_MUL1);
    let by_ = mod64((ay ^ (ay >> 30u64)) * SPLITMIX_MUL1);
    let cx = mod64((bx ^ (bx >> 27u64)) * SPLITMIX_MUL2);
    let cy = mod64((by_ ^ (by_ >> 27u64)) * SPLITMIX_MUL2);
    lemma_xorshift_injective(cx, cy);
    lemma_mul2_injective(bx ^ (bx >> 27u64), by_ ^ (by_ >> 27u64));
    lemma_xorshift_injective(bx, by_);
    lemma_mul1_injective(ax ^ (ax >> 30u64), ay ^ (ay >> 30u64));
    lemma_xorshift_injective(ax, ay);
    lemma_add_gamma_injective(x, y);
}

/// Upper bound (exclusive) of the eight-digit seed codes.
pub const SEED8_LIMIT: u32 = 100_000_000;

/// Trusted: samples `rand::distr::Uniform::new(0, limit)` (unwrapped) with the
/// thread-local generator `rand::rng()`. `Uniform::new` fails only on an empty
/// range, which `requires` rules out, and its documentation promises that an
/// integer sample lies in `0..limit`; that is all the contract claims. Which
/// value comes back depends on the operating system's entropy and is left
/// unsaid.
#[verifier::external_body]
fn thread_uniform_below(limit: u32) -> (r: u32)
    requires
        limit > 0,
    ensures
        r < limit,
{
    rand::rng().sample(Uniform::new(0u32, limit).unwrap())
}

/// A fresh eight-digit seed code drawn from the thread-local generator: a
/// uniform draw from `0..100_000_000`.
pub fn generate_seed8() -> (code: u32)
    ensures
        code < SEED8_LIMIT,
{
    thread_uniform_below(SEED8_LIMIT)
}

/// Widens a 32-bit seed code into a 64-bit master seed with one SplitMix64 step.
pub fn expand_seed64(code: u32) -> (seed: u64)
    ensures
        seed == splitmix64_spec(code as u64),
{
    splitmix64(code as u64)
}

/// The SplitMix64 mixing function (Steele, Lea and Flood).
pub fn splitmix64(x: u64) -> (z: u64)
    ensures
        z == splitmix64_spec(x),
{
    let a = x.wrapping_add(SPLITMIX_GAMMA);
    let b = (a ^ (a >> 30u64)).wrapping_mul(SPLITMIX_MUL1);
    let c = (b ^ (b >> 27u64)).wrapping_mul(SPLITMIX_MUL2);
    c ^ (c >> 31u64)
}

} // verus!
