//! The deterministic sources of randomness of a simulation and of its hosts.

use std::collections::hash_map::DefaultHasher;
use std::hash::{Hash, Hasher};

use rand::{Rng, SeedableRng};
use rand_xoshiro::Xoshiro256PlusPlus;
use vstd::prelude::*;
use vstd::std_specs::hash::DefaultHasherAdditionalSpecFns;

verus! {

/// The generator type of the `rand_xoshiro` crate. Nothing is known of what it holds.
#[verifier::external_type_specification]
#[verifier::external_body]
pub struct ExXoshiro256PlusPlus(Xoshiro256PlusPlus);

/// The first number that `Rng::random` draws from a generator that
/// `Xoshiro256PlusPlus::seed_from_u64` seeded.
pub uninterp spec fn first_random_u64(seed: u64) -> u64;

/// The generator that `Xoshiro256PlusPlus::seed_from_u64` seeded, once its first number is drawn: it
/// stands before the second.
pub uninterp spec fn seeded_generator(seed: u64) -> Xoshiro256PlusPlus;

/// Seeds a generator through `Xoshiro256PlusPlus::seed_from_u64` and draws its first number through
/// `Rng::random`. Claimed: the number and the generator, which can draw further numbers, depend on
/// the seed alone.
#[verifier::external_body]
pub(crate) fn seed_generator(seed: u64) -> (seeded: (Xoshiro256PlusPlus, u64))
    ensures
        seeded.0 == seeded_generator(seed),
        seeded.1 == first_random_u64(seed),
{
    let mut random = Xoshiro256PlusPlus::seed_from_u64(seed);
    let first: u64 = random.random();
    (random, first)
}

/// What the standard library's hashing of a text writes to a hasher.
pub uninterp spec fn text_hash_writes(text: Seq<char>) -> Seq<Seq<u8>>;

/// Feeds a text to a hasher, through the standard library's `Hash` for `str`. Claimed of it: what
/// is written depends on the text alone, and stands behind what was written before.
#[verifier::external_body]
fn hash_text(text: &str, hasher: &mut DefaultHasher)
    ensures
        final(hasher)@ == old(hasher)@ + text_hash_writes(text@),
{
    text.hash(hasher)
}

/// The hash of a host name.
pub open spec fn hostname_hash(name: Seq<char>) -> u64 {
    DefaultHasher::spec_finish(text_hash_writes(name))
}

/// The hash of a host name.
pub fn hash_hostname(name: &str) -> (hash: u64)
    ensures
        hash == hostname_hash(name@),
{
    let mut hasher = DefaultHasher::new();
    hash_text(name, &mut hasher);
    assert(hasher@ =~= text_hash_writes(name@));
    hasher.finish()
}

/// The seed of a host: the number that all hosts share, mixed with the hash of the name.
pub open spec fn host_seed(randomness: u64, name_hash: u64) -> u64 {
    randomness ^ name_hash
}

/// With the same shared number, hosts whose names hash differently have different seeds.
pub proof fn law_host_seeds_differ(randomness: u64, a: u64, b: u64)
    ensures
        host_seed(randomness, a) == host_seed(randomness, b) <==> a == b,
{
    assert((randomness ^ a) == (randomness ^ b) <==> a == b) by (bit_vector);
}

/// A host's seed depends on the shared number as well as on its name: mixing the name's hash in once
/// more gives the shared number back.
pub proof fn law_seed_gives_the_shared_number_back(randomness: u64, other: u64, name_hash: u64)
    ensures
        host_seed(host_seed(randomness, name_hash), name_hash) == randomness,
        host_seed(randomness, name_hash) == host_seed(other, name_hash) <==> randomness == other,
        host_seed(randomness, 0) == randomness,
{
    assert((randomness ^ name_hash) ^ name_hash == randomness) by (bit_vector);
    assert((randomness ^ name_hash) == (other ^ name_hash) <==> randomness == other)
        by (bit_vector);
    assert(randomness ^ 0 == randomness) by (bit_vector);
}

/// A name is hashed by a new hasher that is fed the name, once and nothing else.
pub proof fn law_names_are_hashed_alone(name: Seq<char>)
    ensures
        hostname_hash(name) == DefaultHasher::spec_finish(text_hash_writes(name)),
{
}

} // verus!
