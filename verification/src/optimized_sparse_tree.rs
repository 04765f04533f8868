//! The index-addressed sparse tree with the legacy hash algebra.
//!
//! Leaves are addressed directly by a 32-bit position instead of a key
//! digest, values hash as plain `keccak(value)`, parents as
//! `keccak(left ++ right)` with no domain byte, and every unmaterialized
//! node at every level defaults to the single hash `keccak(0x00)`. One
//! insertion writes its whole path in a single transaction.

use vstd::prelude::*;

use crate::codec::node_key_spec;
use crate::hashing::{hash_pair, hash_pair_spec, keccak256, keccak_spec};
use crate::hexstr::{decode_hex, encode_hex, hex_chars_of, hex_decode_bytes, hex_valid};
use crate::merkle_tree::{bytes_eq, copy_bytes};
use crate::codec::lemma_node_key_injective;
use crate::sparse_merkle_tree::lemma_index_bounds;
use crate::storage::{
    cache_contents, insert_all, leaves_contents, lemma_insert_all_frame, lemma_insert_all_lookup,
    metadata_contents, LmdbStorage,
};
use crate::TreeError;

verus! {

use vstd::arithmetic::power2::pow2;
use vstd::utf8::encode_utf8;

/// The fixed depth of this tree.
pub const TREE_DEPTH: usize = 32;

/// One leaf slot per 32-bit position.
pub const MAX_LEAVES: u64 = 4294967296;

/// A proof: one hex-encoded sibling per level, leaf level first.
#[derive(Debug, Clone)]
pub struct OptimizedSparseMerkleProof {
    pub siblings: Vec<String>,
}

impl View for OptimizedSparseMerkleProof {
    type V = Seq<Seq<char>>;

    open spec fn view(&self) -> Seq<Seq<char>> {
        Seq::new(self.siblings@.len(), |i: int| self.siblings@[i]@)
    }
}

/// The single default hash of every unmaterialized node: `keccak(0x00)`.
pub open spec fn legacy_empty_spec() -> Seq<u8> {
    keccak_spec(seq![0u8])
}

/// The materialized hash at `(level, index)`, or the default hash.
pub open spec fn legacy_node_or_default(cm: Map<Seq<u8>, Seq<u8>>, level: int, index: int) -> Seq<
    u8,
> {
    if cm.contains_key(node_key_spec(level, index as u64)) {
        cm[node_key_spec(level, index as u64)]
    } else {
        legacy_empty_spec()
    }
}

/// The neighbour position that pairs with `i`.
pub open spec fn legacy_sibling_index(i: int) -> int {
    if i % 2 == 0 {
        i + 1
    } else {
        i - 1
    }
}

/// The hash an insertion writes at level `l` of its path.
pub open spec fn legacy_path_val(cm: Map<Seq<u8>, Seq<u8>>, lh: Seq<u8>, idx: int, l: int) -> Seq<
    u8,
>
    decreases l,
{
    if l <= 0 {
        lh
    } else {
        let child = legacy_path_val(cm, lh, idx, l - 1);
        let ci = idx / pow2((l - 1) as nat) as int;
        let sib = legacy_node_or_default(cm, l - 1, legacy_sibling_index(ci));
        if ci % 2 == 0 {
            hash_pair_spec(child, sib)
        } else {
            hash_pair_spec(sib, child)
        }
    }
}

/// The write set of one insertion.
pub open spec fn legacy_path_pairs(
    cm: Map<Seq<u8>, Seq<u8>>,
    lh: Seq<u8>,
    idx: int,
    depth: int,
) -> Seq<(Seq<u8>, Seq<u8>)> {
    Seq::new(
        (depth + 1) as nat,
        |l: int|
            (
                node_key_spec(l, (idx / pow2(l as nat) as int) as u64),
                legacy_path_val(cm, lh, idx, l),
            ),
    )
}

/// The proof siblings served for leaf position `idx`.
pub open spec fn legacy_proof_sibs(cm: Map<Seq<u8>, Seq<u8>>, idx: int, depth: int) -> Seq<Seq<u8>> {
    Seq::new(
        depth as nat,
        |l: int| legacy_node_or_default(cm, l, legacy_sibling_index(idx / pow2(l as nat) as int)),
    )
}

/// The verifier's fold over hex siblings with the legacy pairing.
pub open spec fn legacy_verify_from(acc: Seq<u8>, idx: int, rest: Seq<Seq<char>>, root: Seq<u8>) -> bool
    decreases rest.len(),
{
    if rest.len() == 0 {
        acc == root
    } else {
        let sb = encode_utf8(rest[0]);
        if !hex_valid(sb) {
            false
        } else {
            let sib = hex_decode_bytes(sb);
            let h = if idx % 2 == 0 {
                hash_pair_spec(acc, sib)
            } else {
                hash_pair_spec(sib, acc)
            };
            legacy_verify_from(h, idx / 2, rest.drop_first(), root)
        }
    }
}

/// What verification decides: an out-of-range index or wrong length rejects.
pub open spec fn legacy_verify_spec(
    value: Seq<u8>,
    idx: int,
    sibs: Seq<Seq<char>>,
    root: Seq<u8>,
) -> bool {
    if idx >= MAX_LEAVES || sibs.len() != TREE_DEPTH {
        false
    } else {
        legacy_verify_from(keccak_spec(value), idx, sibs, root)
    }
}

/// The index-addressed sparse tree.
pub struct OptimizedSparseMerkleTree {
    storage: LmdbStorage,
    empty_hash: Vec<u8>,
    depth: usize,
}

impl OptimizedSparseMerkleTree {
    /// The cache map of the backing store.
    pub closed spec fn cm(&self) -> Map<Seq<u8>, Seq<u8>> {
        cache_contents(self.storage)
    }

    /// The leaves map of the backing store, which this tree never touches.
    pub closed spec fn lm(&self) -> Map<Seq<u8>, Seq<u8>> {
        leaves_contents(self.storage)
    }

    /// The metadata map of the backing store, which this tree never touches.
    pub closed spec fn mm(&self) -> Map<Seq<u8>, Seq<u8>> {
        metadata_contents(self.storage)
    }

    /// The depth is the fixed one and the default hash is correct.
    pub closed spec fn well_formed(&self) -> bool {
        &&& self.depth == TREE_DEPTH
        &&& self.empty_hash@ == legacy_empty_spec()
    }

    /// Opens the tree over the store at `path`.
    pub fn new(storage_path: &str) -> (r: Result<Self, TreeError>)
        ensures
            r matches Ok(t) ==> t.well_formed(),
    {
        let storage = LmdbStorage::new(storage_path)?;
        let empty_hash = keccak256(&[0u8]);
        proof {
            assert([0u8]@ =~= seq![0u8]);
        }
        Ok(OptimizedSparseMerkleTree { storage, empty_hash, depth: TREE_DEPTH })
    }

    /// Writes `value` at leaf position `index`, rewriting the whole path in
    /// one transaction. An out-of-range index is a capacity error and
    /// leaves the store untouched.
    pub fn add_leaf(&mut self, index: u64, value: Vec<u8>) -> (r: Result<(), TreeError>)
        requires
            old(self).well_formed(),
        ensures
            final(self).well_formed(),
            (r matches Err(e) && e == TreeError::CapacityExceeded) <==> index >= MAX_LEAVES,
            r is Err ==> *final(self) == *old(self),
            r matches Err(e) ==> (e == TreeError::CapacityExceeded || e
                == TreeError::StorageError),
            r matches Ok(_) ==> final(self).cm() == insert_all(
                old(self).cm(),
                legacy_path_pairs(
                    old(self).cm(),
                    keccak_spec(value@),
                    index as int,
                    TREE_DEPTH as int,
                ),
            ) && final(self).lm() == old(self).lm() && final(self).mm() == old(self).mm(),
    {
        if index >= MAX_LEAVES {
            return Err(TreeError::CapacityExceeded);
        }
        let leaf_hash = keccak256(value.as_slice());
        let ghost cm0 = self.cm();
        let ghost lh = leaf_hash@;
        let ghost gidx = index as int;
        let ghost d = TREE_DEPTH as int;
        let mut updates: Vec<(u64, u64, Vec<u8>)> = Vec::new();
        updates.push((0, index, copy_bytes(&leaf_hash)));
        let mut cur = leaf_hash;
        let mut cur_idx = index;
        let mut level: usize = 0;
        proof {
            vstd::arithmetic::power2::lemma2_to64();
            assert(Seq::new(updates@.len(), |t: int| (
                node_key_spec(updates@[t].0 as int, updates@[t].1),
                updates@[t].2@,
            )) =~~= legacy_path_pairs(cm0, lh, gidx, d).take(1));
        }
        while level < self.depth
            invariant
                self.well_formed(),
                *self == *old(self),
                cm0 == self.cm(),
                level <= self.depth,
                0 <= gidx < MAX_LEAVES,
                gidx == index as int,
                d == TREE_DEPTH as int,
                cur_idx == gidx / pow2(level as nat) as int,
                cur@ == legacy_path_val(cm0, lh, gidx, level as int),
                updates@.len() == level + 1,
                forall|t: int| 0 <= t < updates@.len() ==> (#[trigger] updates@[t].0) < 100,
                Seq::new(updates@.len(), |t: int| (
                    node_key_spec(updates@[t].0 as int, updates@[t].1),
                    updates@[t].2@,
                )) == legacy_path_pairs(cm0, lh, gidx, d).take(level + 1),
            decreases self.depth - level,
        {
            proof {
                vstd::arithmetic::power2::lemma2_to64();
                vstd::arithmetic::power2::lemma_pow2_pos(level as nat);
            }
            let sib_idx = if cur_idx % 2 == 0 {
                cur_idx + 1
            } else {
                cur_idx - 1
            };
            let sib = match self.storage.get_node(level as u64, sib_idx) {
                Ok(Some(v)) => v,
                Ok(None) => copy_bytes(&self.empty_hash),
                Err(e) => {
                    return Err(e);
                },
            };
            proof {
                assert(sib@ == legacy_node_or_default(
                    cm0,
                    level as int,
                    legacy_sibling_index(cur_idx as int),
                ));
            }
            let parent = if cur_idx % 2 == 0 {
                hash_pair(cur.as_slice(), sib.as_slice())
            } else {
                hash_pair(sib.as_slice(), cur.as_slice())
            };
            cur_idx = cur_idx / 2;
            let next_level = level + 1;
            updates.push(((next_level) as u64, cur_idx, copy_bytes(&parent)));
            cur = parent;
            level = next_level;
            proof {
                vstd::arithmetic::power2::lemma_pow2_unfold(level as nat);
                vstd::arithmetic::power2::lemma_pow2_pos((level - 1) as nat);
                vstd::arithmetic::power2::lemma_pow2_pos(level as nat);
                vstd::arithmetic::div_mod::lemma_div_denominator(
                    gidx,
                    pow2((level - 1) as nat) as int,
                    2,
                );
                assert(cur_idx == gidx / pow2(level as nat) as int);
                assert(cur@ == legacy_path_val(cm0, lh, gidx, level as int));
                assert(Seq::new(updates@.len(), |t: int| (
                    node_key_spec(updates@[t].0 as int, updates@[t].1),
                    updates@[t].2@,
                )) =~~= legacy_path_pairs(cm0, lh, gidx, d).take(level + 1));
            }
        }
        proof {
            assert(legacy_path_pairs(cm0, lh, gidx, d).take(d + 1) =~= legacy_path_pairs(
                cm0,
                lh,
                gidx,
                d,
            ));
        }
        match self.storage.store_path_batch(&updates) {
            Ok(_) => Ok(()),
            Err(e) => Err(e),
        }
    }

    /// The materialized root, or the default hash when nothing was written.
    pub fn get_root(&self) -> (r: Result<Vec<u8>, TreeError>)
        requires
            self.well_formed(),
        ensures
            r matches Ok(h) ==> h@ == legacy_node_or_default(self.cm(), TREE_DEPTH as int, 0),
    {
        match self.storage.get_node(self.depth as u64, 0) {
            Ok(Some(v)) => Ok(v),
            Ok(None) => Ok(copy_bytes(&self.empty_hash)),
            Err(e) => Err(e),
        }
    }

    /// The proof for position `index`: exactly `TREE_DEPTH` hex siblings.
    pub fn get_proof(&self, index: u64) -> (r: Result<OptimizedSparseMerkleProof, TreeError>)
        requires
            self.well_formed(),
        ensures
            index >= MAX_LEAVES ==> (r matches Err(e) && e == TreeError::CapacityExceeded),
            r matches Ok(p) ==> index < MAX_LEAVES && p@ == legacy_proof_sibs(
                self.cm(),
                index as int,
                TREE_DEPTH as int,
            ).map_values(|h: Seq<u8>| hex_chars_of(h)) && p.siblings@.len() == TREE_DEPTH,
    {
        if index >= MAX_LEAVES {
            return Err(TreeError::CapacityExceeded);
        }
        let ghost gidx = index as int;
        let ghost d = TREE_DEPTH as int;
        let mut siblings: Vec<String> = Vec::new();
        let mut cur_idx = index;
        let mut level: usize = 0;
        proof {
            vstd::arithmetic::power2::lemma2_to64();
        }
        while level < self.depth
            invariant
                self.well_formed(),
                level <= self.depth,
                0 <= gidx < MAX_LEAVES,
                gidx == index as int,
                d == TREE_DEPTH as int,
                cur_idx == gidx / pow2(level as nat) as int,
                siblings@.len() == level,
                forall|l: int|
                    0 <= l < level ==> (#[trigger] siblings@[l]@) == hex_chars_of(
                        legacy_proof_sibs(self.cm(), gidx, d)[l],
                    ),
            decreases self.depth - level,
        {
            proof {
                vstd::arithmetic::power2::lemma2_to64();
                vstd::arithmetic::power2::lemma_pow2_pos(level as nat);
            }
            let sib_idx = if cur_idx % 2 == 0 {
                cur_idx + 1
            } else {
                cur_idx - 1
            };
            let sib = match self.storage.get_node(level as u64, sib_idx) {
                Ok(Some(v)) => v,
                Ok(None) => copy_bytes(&self.empty_hash),
                Err(e) => {
                    return Err(e);
                },
            };
            siblings.push(encode_hex(sib.as_slice()));
            cur_idx = cur_idx / 2;
            level = level + 1;
            proof {
                vstd::arithmetic::power2::lemma_pow2_unfold(level as nat);
                vstd::arithmetic::power2::lemma_pow2_pos((level - 1) as nat);
                vstd::arithmetic::power2::lemma_pow2_pos(level as nat);
                vstd::arithmetic::div_mod::lemma_div_denominator(
                    gidx,
                    pow2((level - 1) as nat) as int,
                    2,
                );
                assert(legacy_proof_sibs(self.cm(), gidx, d)[level - 1] == legacy_node_or_default(
                    self.cm(),
                    level - 1,
                    legacy_sibling_index(gidx / pow2((level - 1) as nat) as int),
                ));
            }
        }
        proof {
            assert(Seq::new(siblings@.len(), |i: int| siblings@[i]@) =~= legacy_proof_sibs(
                self.cm(),
                gidx,
                d,
            ).map_values(|h: Seq<u8>| hex_chars_of(h)));
        }
        Ok(OptimizedSparseMerkleProof { siblings })
    }

    /// Verification: folds `keccak(value)` with the proof's siblings along
    /// the position's path and accepts exactly when the fold reproduces
    /// `root`. A wrong length, out-of-range index or malformed hex rejects.
    pub fn verify_proof(
        &self,
        leaf_value: &[u8],
        proof: &OptimizedSparseMerkleProof,
        root: &[u8],
        index: u64,
    ) -> (r: bool)
        requires
            self.well_formed(),
        ensures
            r == legacy_verify_spec(leaf_value@, index as int, proof@, root@),
    {
        if index >= MAX_LEAVES || proof.siblings.len() != self.depth {
            return false;
        }
        let mut cur = keccak256(leaf_value);
        let mut cur_idx = index;
        let n = proof.siblings.len();
        let mut j: usize = 0;
        proof {
            assert(proof@.skip(0) =~= proof@);
        }
        while j < n
            invariant
                n == proof.siblings@.len(),
                j <= n,
                legacy_verify_from(keccak_spec(leaf_value@), index as int, proof@, root@)
                    == legacy_verify_from(cur@, cur_idx as int, proof@.skip(j as int), root@),
            decreases n - j,
        {
            proof {
                assert(proof@.skip(j as int)[0] == proof@[j as int]);
                assert(proof@.skip(j as int).drop_first() =~= proof@.skip(j as int + 1));
            }
            let sib = match decode_hex(proof.siblings[j].as_str()) {
                Some(bytes) => bytes,
                None => {
                    return false;
                },
            };
            let next = if cur_idx % 2 == 0 {
                hash_pair(cur.as_slice(), sib.as_slice())
            } else {
                hash_pair(sib.as_slice(), cur.as_slice())
            };
            cur = next;
            cur_idx = cur_idx / 2;
            j = j + 1;
        }
        proof {
            assert(proof@.skip(n as int) =~= Seq::<Seq<char>>::empty());
        }
        bytes_eq(cur.as_slice(), root)
    }
}

/// The raw verification fold over decoded siblings, legacy pairing.
pub open spec fn legacy_fold_raw(acc: Seq<u8>, idx: int, sibs: Seq<Seq<u8>>) -> Seq<u8>
    decreases sibs.len(),
{
    if sibs.len() == 0 {
        acc
    } else {
        let h = if idx % 2 == 0 {
            hash_pair_spec(acc, sibs[0])
        } else {
            hash_pair_spec(sibs[0], acc)
        };
        legacy_fold_raw(h, idx / 2, sibs.drop_first())
    }
}

/// A position beside the inserted path is untouched by the insertion.
pub proof fn lemma_legacy_sibling_untouched(
    cm: Map<Seq<u8>, Seq<u8>>,
    lh: Seq<u8>,
    idx: int,
    l: int,
)
    requires
        0 <= l < TREE_DEPTH,
        0 <= idx < MAX_LEAVES,
    ensures
        legacy_node_or_default(
            insert_all(cm, legacy_path_pairs(cm, lh, idx, TREE_DEPTH as int)),
            l,
            legacy_sibling_index(idx / pow2(l as nat) as int),
        ) == legacy_node_or_default(cm, l, legacy_sibling_index(idx / pow2(l as nat) as int)),
{
    let d = TREE_DEPTH as int;
    let pp = legacy_path_pairs(cm, lh, idx, d);
    let ci = idx / pow2(l as nat) as int;
    let si = legacy_sibling_index(ci);
    proof_index_range(idx);
    lemma_index_bounds(idx, d);
    assert(0 <= si < 0x1_0000_0000_0000_0000) by {
        vstd::arithmetic::power2::lemma_pow2_pos(l as nat);
    }
    assert forall|t: int| 0 <= t < pp.len() implies (#[trigger] pp[t].0) != node_key_spec(
        l,
        si as u64,
    ) by {
        let pt = idx / pow2(t as nat) as int;
        if pp[t].0 == node_key_spec(l, si as u64) {
            lemma_node_key_injective(t, (pt as u64), l, (si as u64));
            assert(t == l);
            assert((pt as u64) == (si as u64));
            assert(pt == ci && 0 <= pt);
            assert(si != ci);
        }
    }
    lemma_insert_all_frame(cm, pp, node_key_spec(l, si as u64));
}

/// The leaf space of this tree is the bottom of a depth-32 trie.
proof fn proof_index_range(idx: int)
    requires
        0 <= idx < MAX_LEAVES,
    ensures
        0 <= idx < pow2(TREE_DEPTH as nat),
{
    vstd::arithmetic::power2::lemma2_to64();
}

/// After an insertion, every node on the written path reads back as the
/// written hash.
pub proof fn lemma_legacy_path_materialized(
    cm: Map<Seq<u8>, Seq<u8>>,
    lh: Seq<u8>,
    idx: int,
    l: int,
)
    requires
        0 <= l <= TREE_DEPTH,
        0 <= idx < MAX_LEAVES,
    ensures
        legacy_node_or_default(
            insert_all(cm, legacy_path_pairs(cm, lh, idx, TREE_DEPTH as int)),
            l,
            idx / pow2(l as nat) as int,
        ) == legacy_path_val(cm, lh, idx, l),
        insert_all(cm, legacy_path_pairs(cm, lh, idx, TREE_DEPTH as int)).contains_key(
            node_key_spec(l, (idx / pow2(l as nat) as int) as u64),
        ),
{
    let d = TREE_DEPTH as int;
    let pp = legacy_path_pairs(cm, lh, idx, d);
    proof_index_range(idx);
    lemma_index_bounds(idx, d);
    assert forall|t: int| l < t < pp.len() implies (#[trigger] pp[t].0) != pp[l].0 by {
        if pp[t].0 == pp[l].0 {
            lemma_node_key_injective(
                t,
                ((idx / pow2(t as nat) as int) as u64),
                l,
                ((idx / pow2(l as nat) as int) as u64),
            );
        }
    }
    lemma_insert_all_lookup(cm, pp, l);
}

/// Folding the written path value at level `l` with the served siblings of
/// the levels above reproduces the written root.
proof fn lemma_legacy_fold_to_root(cm: Map<Seq<u8>, Seq<u8>>, lh: Seq<u8>, idx: int, l: int)
    requires
        0 <= l <= TREE_DEPTH,
        0 <= idx < MAX_LEAVES,
    ensures
        legacy_fold_raw(
            legacy_path_val(cm, lh, idx, l),
            idx / pow2(l as nat) as int,
            legacy_proof_sibs(
                insert_all(cm, legacy_path_pairs(cm, lh, idx, TREE_DEPTH as int)),
                idx,
                TREE_DEPTH as int,
            ).skip(l),
        ) == legacy_path_val(cm, lh, idx, TREE_DEPTH as int),
    decreases TREE_DEPTH as int - l,
{
    let d = TREE_DEPTH as int;
    let cm1 = insert_all(cm, legacy_path_pairs(cm, lh, idx, d));
    let sibs = legacy_proof_sibs(cm1, idx, d);
    proof_index_range(idx);
    if l == d {
        assert(sibs.skip(d) =~= Seq::<Seq<u8>>::empty());
    } else {
        assert(sibs.skip(l).len() == d - l);
        assert(sibs.skip(l)[0] == sibs[l]);
        assert(sibs[l] == legacy_node_or_default(
            cm1,
            l,
            legacy_sibling_index(idx / pow2(l as nat) as int),
        ));
        lemma_legacy_sibling_untouched(cm, lh, idx, l);
        vstd::arithmetic::power2::lemma_pow2_unfold((l + 1) as nat);
        vstd::arithmetic::power2::lemma_pow2_pos(l as nat);
        vstd::arithmetic::power2::lemma_pow2_pos((l + 1) as nat);
        vstd::arithmetic::div_mod::lemma_div_denominator(idx, pow2(l as nat) as int, 2);
        assert((idx / pow2(l as nat) as int) / 2 == idx / pow2((l + 1) as nat) as int);
        assert(legacy_fold_raw(
            legacy_path_val(cm, lh, idx, l),
            idx / pow2(l as nat) as int,
            sibs.skip(l),
        ) == legacy_fold_raw(
            legacy_path_val(cm, lh, idx, l + 1),
            idx / pow2((l + 1) as nat) as int,
            sibs.skip(l).drop_first(),
        ));
        assert(sibs.skip(l).drop_first() =~= sibs.skip(l + 1));
        lemma_legacy_fold_to_root(cm, lh, idx, l + 1);
    }
}

/// Hex round trip of a whole fold: verifying over the hex-encoded siblings
/// decides exactly whether the raw fold reaches the root.
proof fn lemma_legacy_hex_fold(acc: Seq<u8>, idx: int, sibs: Seq<Seq<u8>>, root: Seq<u8>)
    ensures
        legacy_verify_from(acc, idx, sibs.map_values(|h: Seq<u8>| hex_chars_of(h)), root) == (
        legacy_fold_raw(acc, idx, sibs) == root),
    decreases sibs.len(),
{
    let mapped = sibs.map_values(|h: Seq<u8>| hex_chars_of(h));
    if sibs.len() == 0 {
    } else {
        crate::hexstr::lemma_hex_round_trip(sibs[0]);
        assert(mapped[0] == hex_chars_of(sibs[0]));
        assert(mapped.drop_first() =~= sibs.drop_first().map_values(
            |h: Seq<u8>| hex_chars_of(h),
        ));
        lemma_legacy_hex_fold(
            if idx % 2 == 0 {
                hash_pair_spec(acc, sibs[0])
            } else {
                hash_pair_spec(sibs[0], acc)
            },
            idx / 2,
            sibs.drop_first(),
            root,
        );
    }
}

/// After `add_leaf(index, value)`, the proof served for `index` verifies
/// against the served root.
pub proof fn lemma_legacy_membership_round_trip(
    cm: Map<Seq<u8>, Seq<u8>>,
    value: Seq<u8>,
    index: u64,
)
    requires
        index < MAX_LEAVES,
    ensures
        ({
            let lh = keccak_spec(value);
            let cm1 = insert_all(cm, legacy_path_pairs(cm, lh, index as int, TREE_DEPTH as int));
            legacy_verify_spec(
                value,
                index as int,
                legacy_proof_sibs(cm1, index as int, TREE_DEPTH as int).map_values(
                    |h: Seq<u8>| hex_chars_of(h),
                ),
                legacy_node_or_default(cm1, TREE_DEPTH as int, 0),
            )
        }),
{
    let d = TREE_DEPTH as int;
    let lh = keccak_spec(value);
    let idx = index as int;
    let cm1 = insert_all(cm, legacy_path_pairs(cm, lh, idx, d));
    proof_index_range(idx);
    lemma_index_bounds(idx, d);
    assert(pow2(0) == 1) by {
        vstd::arithmetic::power2::lemma2_to64();
    }
    assert(idx / pow2(0) as int == idx);
    assert(legacy_path_val(cm, lh, idx, 0) == lh);
    assert(legacy_proof_sibs(cm1, idx, d).skip(0) =~= legacy_proof_sibs(cm1, idx, d));
    lemma_legacy_fold_to_root(cm, lh, idx, 0);
    lemma_legacy_hex_fold(lh, idx, legacy_proof_sibs(cm1, idx, d), legacy_node_or_default(
        cm1,
        d,
        0,
    ));
    lemma_legacy_path_materialized(cm, lh, idx, d);
    assert(idx / pow2(d as nat) as int == 0);
}

} // verus!
