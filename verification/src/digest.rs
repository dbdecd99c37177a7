//! Digests and the two hashing modes of the tree.
//!
//! The hash function is the sole outside collaborator of the tree; any
//! collision-resistant hash with a single-input mode (leaf hashing) and a
//! two-input mode (internal-node combination) fits. Here it is SHA-256,
//! called through one trusted wrapper; a digest is carried as its four
//! 64-bit limbs, so that everything but the hash call itself is plain data.

use vstd::prelude::*;

verus! {

/// A hash digest: a 256-bit output carried as four 64-bit limbs, compared by
/// exact structural equality.
#[derive(Clone, Copy, Debug, PartialEq, Eq, Structural)]
pub struct Digest {
    pub h0: u64,
    pub h1: u64,
    pub h2: u64,
    pub h3: u64,
}

/// The four limbs of a digest, in order, as a sequence.
pub open spec fn digest_elems(d: Digest) -> Seq<u64> {
    seq![d.h0, d.h1, d.h2, d.h3]
}

/// What SHA-256 returns on a sequence of 64-bit words, each word encoded as
/// its eight big-endian bytes and each output limb read back the same way.
/// The hash is a fixed compression function, so the result depends on the
/// input words alone.
pub uninterp spec fn sha256_of(input: Seq<u64>) -> Digest;

/// Relies on sha2's `Sha256::digest`: a deterministic hash of the input
/// bytes alone, 32 bytes wide. The words go in as their big-endian bytes and
/// the output comes back as four big-endian limbs, so the digest is a
/// function of the input words.
#[verifier::external_body]
fn hash_words(input: &Vec<u64>) -> (r: Digest)
    ensures
        r == sha256_of(input@),
{
    let mut bytes: Vec<u8> = Vec::with_capacity(8 * input.len());
    for w in input.iter() {
        bytes.extend_from_slice(&w.to_be_bytes());
    }
    let h = <sha2::Sha256 as sha2::Digest>::digest(&bytes);
    Digest {
        h0: u64::from_be_bytes(h[0..8].try_into().unwrap()),
        h1: u64::from_be_bytes(h[8..16].try_into().unwrap()),
        h2: u64::from_be_bytes(h[16..24].try_into().unwrap()),
        h3: u64::from_be_bytes(h[24..32].try_into().unwrap()),
    }
}

/// The digest of a leaf holding `value` (single-input hashing mode).
pub open spec fn leaf_digest(value: u64) -> Digest {
    sha256_of(seq![value])
}

/// The digest of an internal node from its two child digests (two-input
/// hashing mode, domain-separated from leaf hashing by input arity).
pub open spec fn combine_digest(left: Digest, right: Digest) -> Digest {
    sha256_of(digest_elems(left) + digest_elems(right))
}

/// Hashes one leaf value.
pub fn hash_leaf(value: u64) -> (r: Digest)
    ensures
        r == leaf_digest(value),
{
    let mut input: Vec<u64> = Vec::new();
    input.push(value);
    proof {
        assert(input@ =~= seq![value]);
    }
    hash_words(&input)
}

/// Combines two child digests into their parent's digest, left first.
pub fn combine(left: &Digest, right: &Digest) -> (r: Digest)
    ensures
        r == combine_digest(*left, *right),
{
    let mut input: Vec<u64> = Vec::new();
    input.push(left.h0);
    input.push(left.h1);
    input.push(left.h2);
    input.push(left.h3);
    input.push(right.h0);
    input.push(right.h1);
    input.push(right.h2);
    input.push(right.h3);
    proof {
        assert(input@ =~= digest_elems(*left) + digest_elems(*right));
    }
    hash_words(&input)
}

} // verus!
