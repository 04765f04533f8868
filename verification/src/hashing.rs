//! The hash algebra shared by all trees in this crate.
//!
//! Every digest is produced by Keccak-256. Two algebras coexist and must stay
//! distinct: the incremental tree combines two digests with no domain byte,
//! while the sparse tree prepends a domain byte (`0x00` for leaves, `0x01` for
//! internal nodes, `0x02` for the empty-leaf seed) so that leaf, internal and
//! empty hashes can never be confused for one another.

use vstd::prelude::*;

use sha3::Digest;

verus! {

/// The Keccak-256 digest of a byte sequence. The digest is a pure function of
/// the input bytes; its algorithm is not restated here.
pub uninterp spec fn keccak_spec(data: Seq<u8>) -> Seq<u8>;

/// Relies on `sha3::Keccak256` (`digest::Digest::digest`): the digest depends
/// on the input bytes alone and is exactly 32 bytes long.
#[verifier::external_body]
pub fn keccak256(data: &[u8]) -> (r: Vec<u8>)
    ensures
        r@ == keccak_spec(data@),
        r@.len() == 32,
{
    sha3::Keccak256::digest(data).to_vec()
}

/// Incremental-tree internal node: plain `keccak(left ++ right)`, no domain
/// byte. This legacy algebra must be preserved for proof compatibility.
pub open spec fn hash_pair_spec(left: Seq<u8>, right: Seq<u8>) -> Seq<u8> {
    keccak_spec(left + right)
}

/// Sparse-tree internal node: `keccak(0x01 ++ left ++ right)`.
pub open spec fn smt_internal_spec(left: Seq<u8>, right: Seq<u8>) -> Seq<u8> {
    keccak_spec(seq![1u8] + left + right)
}

/// Sparse-tree leaf: `keccak(0x00 ++ keccak(key) ++ keccak(value))`.
pub open spec fn smt_leaf_spec(key_hash: Seq<u8>, value: Seq<u8>) -> Seq<u8> {
    keccak_spec(seq![0u8] + key_hash + keccak_spec(value))
}

/// Sparse-tree empty-leaf seed: `keccak(0x02)`.
pub open spec fn smt_empty_leaf_spec() -> Seq<u8> {
    keccak_spec(seq![2u8])
}

/// The per-level default hash of a completely unmaterialized sparse subtree:
/// `empty[0]` is the empty-leaf seed and `empty[l + 1]` combines two copies of
/// `empty[l]` as an internal node.
pub open spec fn smt_empty_spec(level: nat) -> Seq<u8>
    decreases level,
{
    if level == 0 {
        smt_empty_leaf_spec()
    } else {
        smt_internal_spec(smt_empty_spec((level - 1) as nat), smt_empty_spec((level - 1) as nat))
    }
}

/// `keccak(left ++ right)`, the incremental-tree pairing.
pub fn hash_pair(left: &[u8], right: &[u8]) -> (r: Vec<u8>)
    ensures
        r@ == hash_pair_spec(left@, right@),
        r@.len() == 32,
{
    let mut buf: Vec<u8> = Vec::new();
    buf.extend_from_slice(left);
    buf.extend_from_slice(right);
    proof {
        assert(buf@ =~= left@ + right@);
    }
    keccak256(buf.as_slice())
}

/// `keccak(data)`, exposed for key hashing.
pub fn hash_data(data: &[u8]) -> (r: Vec<u8>)
    ensures
        r@ == keccak_spec(data@),
        r@.len() == 32,
{
    keccak256(data)
}

/// `keccak(domain ++ left ++ right)` with the internal-node domain byte.
pub fn smt_hash_internal(left: &[u8], right: &[u8]) -> (r: Vec<u8>)
    ensures
        r@ == smt_internal_spec(left@, right@),
        r@.len() == 32,
{
    let mut buf: Vec<u8> = Vec::new();
    buf.push(1u8);
    buf.extend_from_slice(left);
    buf.extend_from_slice(right);
    proof {
        assert(buf@ =~= seq![1u8] + left@ + right@);
    }
    keccak256(buf.as_slice())
}

/// `keccak(domain ++ key_hash ++ keccak(value))` with the leaf domain byte.
pub fn smt_hash_leaf(key_hash: &[u8], value: &[u8]) -> (r: Vec<u8>)
    ensures
        r@ == smt_leaf_spec(key_hash@, value@),
        r@.len() == 32,
{
    let value_hash = keccak256(value);
    let mut buf: Vec<u8> = Vec::new();
    buf.push(0u8);
    buf.extend_from_slice(key_hash);
    buf.extend_from_slice(value_hash.as_slice());
    proof {
        assert(buf@ =~= seq![0u8] + key_hash@ + keccak_spec(value@));
    }
    keccak256(buf.as_slice())
}

/// The table `empty[0 ..= depth]` of default sparse-tree hashes.
pub fn smt_empty_table(depth: usize) -> (r: Vec<Vec<u8>>)
    ensures
        r@.len() == depth + 1,
        forall|l: int| 0 <= l <= depth ==> #[trigger] r@[l]@ == smt_empty_spec(l as nat),
        forall|l: int| 0 <= l <= depth ==> #[trigger] r@[l]@.len() == 32,
{
    let mut out: Vec<Vec<u8>> = Vec::new();
    let seed: Vec<u8> = keccak256(&[2u8]);
    proof {
        assert([2u8]@ =~= seq![2u8]);
    }
    out.push(seed);
    let mut level: usize = 0;
    while level < depth
        invariant
            level <= depth,
            out@.len() == level + 1,
            forall|l: int| 0 <= l <= level ==> #[trigger] out@[l]@ == smt_empty_spec(l as nat),
            forall|l: int| 0 <= l <= level ==> #[trigger] out@[l]@.len() == 32,
        decreases depth - level,
    {
        let prev = &out[level];
        let next = smt_hash_internal(prev.as_slice(), prev.as_slice());
        out.push(next);
        level = level + 1;
    }
    out
}

} // verus!
