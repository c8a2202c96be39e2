//! The XXH3 hasher of the `xxhash_rust` crate, as this library sees it.
//!
//! Nothing here is proved: each item states what the library relies on.

use vstd::prelude::*;
use xxhash_rust::xxh3::Xxh3;

verus! {

/// `xxhash_rust::xxh3::Xxh3`, the streaming XXH3 hasher.
#[verifier::external_type_specification]
#[verifier::external_body]
pub struct ExHasher(Xxh3);

/// The bytes that a hasher has been given so far, in the order given.
pub uninterp spec fn xxh3_input(hasher: Xxh3) -> Seq<u8>;

/// The 64-bit XXH3 hash of `data`, with the default seed and secret.
pub uninterp spec fn xxh3_64_of(data: Seq<u8>) -> u64;

/// `Xxh3::new` makes a hasher with the default seed and secret that has
/// been given no bytes yet.
pub assume_specification[ Xxh3::new ]() -> (hasher: Xxh3)
    ensures
        xxh3_input(hasher) == Seq::<u8>::empty(),
;

/// `Xxh3::update` gives the hasher the bytes of `input`, after those it
/// already has.
pub assume_specification[ Xxh3::update ](hasher: &mut Xxh3, input: &[u8])
    ensures
        xxh3_input(*final(hasher)) == xxh3_input(*old(hasher)) + input@,
;

/// `Xxh3::digest` returns the XXH3 hash of all the bytes given so far,
/// however they were divided among the calls of `update`; the hasher is
/// left as it was.
pub assume_specification[ Xxh3::digest ](hasher: &Xxh3) -> (hash: u64)
    ensures
        hash == xxh3_64_of(xxh3_input(*hasher)),
;

} // verus!
