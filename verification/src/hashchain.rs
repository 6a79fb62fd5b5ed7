use vstd::prelude::*;

use sha2::Digest;

verus! {

/// The digest one application of SHA-256 yields; a function of the hashed
/// bytes alone.
pub uninterp spec fn sha256_of(data: Seq<u8>) -> Seq<u8>;

/// Relies on sha2::Sha256 (new, update, finalize): the digest depends on the
/// hashed bytes alone.
#[verifier::external_body]
fn sha256(data: &[u8; 32]) -> (r: [u8; 32])
    ensures
        r@ == sha256_of(data@),
{
    let mut hasher = sha2::Sha256::new();
    hasher.update(data);
    hasher.finalize().into()
}

/// `input` hashed through SHA-256 `n` times over.
pub open spec fn chain_digest(n: nat, input: Seq<u8>) -> Seq<u8>
    decreases n,
{
    if n == 0 {
        input
    } else {
        sha256_of(chain_digest((n - 1) as nat, input))
    }
}

/// Feeds a 32-byte block through SHA-256 `num_iters` times, each round
/// hashing the previous round's digest.
pub fn sha2_chain(input: [u8; 32], num_iters: u32) -> (r: [u8; 32])
    ensures
        r@ == chain_digest(num_iters as nat, input@),
{
    let mut hash = input;
    let mut i: u32 = 0;
    while i < num_iters
        invariant
            i <= num_iters,
            hash@ == chain_digest(i as nat, input@),
        decreases num_iters - i,
    {
        hash = sha256(&hash);
        i = i + 1;
    }
    hash
}

} // verus!
