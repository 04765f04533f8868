//! The sparse Merkle tree: a fixed-depth binary trie keyed by a hash digest.
//!
//! A key's Keccak-256 digest gives its leaf position through the top `depth`
//! bits, most significant first. Only nodes on inserted paths are
//! materialized in the node store; every other subtree is represented by a
//! precomputed per-level empty hash. One insertion writes its whole
//! leaf-to-root path in a single transaction.

use vstd::prelude::*;

use crate::codec::node_key_spec;
use crate::hashing::{
    hash_data, keccak_spec, smt_empty_spec, smt_empty_table, smt_hash_internal, smt_hash_leaf,
    smt_internal_spec, smt_leaf_spec,
};
use crate::hexstr::{decode_hex, encode_hex, hex_chars_of, hex_decode_bytes, hex_valid};
use crate::merkle_tree::{bytes_eq, copy_bytes};
use crate::codec::lemma_node_key_injective;
use crate::storage::{
    cache_contents, insert_all, leaves_contents, lemma_insert_all_frame, lemma_insert_all_lookup,
    metadata_contents, LmdbStorage,
};
use crate::TreeError;

verus! {

use vstd::arithmetic::power2::pow2;
use vstd::utf8::encode_utf8;

/// The default trie depth.
pub const DEFAULT_DEPTH: usize = 32;

/// A sparse-tree proof: one hex-encoded sibling per level, leaf level first.
#[derive(Debug, Clone)]
pub struct SparseMerkleProof {
    pub siblings: Vec<String>,
}

impl View for SparseMerkleProof {
    type V = Seq<Seq<char>>;

    open spec fn view(&self) -> Seq<Seq<char>> {
        Seq::new(self.siblings@.len(), |i: int| self.siblings@[i]@)
    }
}

/// Bit `i` of a digest, most significant bit of byte 0 first.
pub open spec fn bit_of(kh: Seq<u8>, i: int) -> int {
    (kh[i / 8] as int / pow2((7 - (i % 8)) as nat) as int) % 2
}

/// The leaf position of a digest: the value of its top `depth` bits.
pub open spec fn key_index_spec(kh: Seq<u8>, depth: int) -> int
    decreases depth,
{
    if depth <= 0 {
        0
    } else {
        key_index_spec(kh, depth - 1) * 2 + bit_of(kh, depth - 1)
    }
}

/// The materialized hash at `(level, index)`, or the level's empty hash.
pub open spec fn node_or_empty(cm: Map<Seq<u8>, Seq<u8>>, level: int, index: int) -> Seq<u8> {
    if cm.contains_key(node_key_spec(level, index as u64)) {
        cm[node_key_spec(level, index as u64)]
    } else {
        smt_empty_spec(level as nat)
    }
}

/// The neighbour position that pairs with `i`.
pub open spec fn sibling_index(i: int) -> int {
    if i % 2 == 0 {
        i + 1
    } else {
        i - 1
    }
}

/// The hash an insertion writes at level `l` of its path: the leaf hash at
/// level 0, and above it each parent of the running hash and the stored (or
/// empty) sibling, ordered by the path bit.
pub open spec fn path_val(cm: Map<Seq<u8>, Seq<u8>>, lh: Seq<u8>, idx: int, l: int) -> Seq<u8>
    decreases l,
{
    if l <= 0 {
        lh
    } else {
        let child = path_val(cm, lh, idx, l - 1);
        let ci = idx / pow2((l - 1) as nat) as int;
        let sib = node_or_empty(cm, l - 1, sibling_index(ci));
        if ci % 2 == 0 {
            smt_internal_spec(child, sib)
        } else {
            smt_internal_spec(sib, child)
        }
    }
}

/// The write set of one insertion: the new node at every level of the path.
pub open spec fn path_pairs(cm: Map<Seq<u8>, Seq<u8>>, lh: Seq<u8>, idx: int, depth: int) -> Seq<
    (Seq<u8>, Seq<u8>),
> {
    Seq::new(
        (depth + 1) as nat,
        |l: int| (node_key_spec(l, (idx / pow2(l as nat) as int) as u64), path_val(cm, lh, idx, l)),
    )
}

/// The proof siblings a tree with contents `cm` serves for leaf position
/// `idx`.
pub open spec fn proof_sibs(cm: Map<Seq<u8>, Seq<u8>>, idx: int, depth: int) -> Seq<Seq<u8>> {
    Seq::new(
        depth as nat,
        |l: int| node_or_empty(cm, l, sibling_index(idx / pow2(l as nat) as int)),
    )
}

/// The raw verification fold over decoded siblings.
pub open spec fn smt_fold_raw(acc: Seq<u8>, idx: int, sibs: Seq<Seq<u8>>) -> Seq<u8>
    decreases sibs.len(),
{
    if sibs.len() == 0 {
        acc
    } else {
        let h = if idx % 2 == 0 {
            smt_internal_spec(acc, sibs[0])
        } else {
            smt_internal_spec(sibs[0], acc)
        };
        smt_fold_raw(h, idx / 2, sibs.drop_first())
    }
}

/// The verifier's fold over hex siblings: a malformed sibling rejects, and
/// the folded hash must equal the claimed root.
pub open spec fn smt_verify_from(acc: Seq<u8>, idx: int, rest: Seq<Seq<char>>, root: Seq<u8>) -> bool
    decreases rest.len(),
{
    if rest.len() == 0 {
        acc == root
    } else {
        let sb = encode_utf8(rest[0]);
        if !hex_valid(sb) {
            false
        } else {
            let sib = hex_decode_bytes(sb);
            let h = if idx % 2 == 0 {
                smt_internal_spec(acc, sib)
            } else {
                smt_internal_spec(sib, acc)
            };
            smt_verify_from(h, idx / 2, rest.drop_first(), root)
        }
    }
}

/// What membership verification decides for a proof of the right length.
pub open spec fn smt_verify_spec(
    start: Seq<u8>,
    idx: int,
    sibs: Seq<Seq<char>>,
    root: Seq<u8>,
    depth: int,
) -> bool {
    if sibs.len() != depth {
        false
    } else {
        smt_verify_from(start, idx, sibs, root)
    }
}

/// The sparse Merkle tree over the node store.
pub struct SparseMerkleTree {
    storage: LmdbStorage,
    empty: Vec<Vec<u8>>,
    depth: usize,
}

impl SparseMerkleTree {
    /// The configured depth.
    pub closed spec fn depth_spec(&self) -> int {
        self.depth as int
    }

    /// The cache map of the backing store, which holds the materialized
    /// nodes.
    pub closed spec fn cm(&self) -> Map<Seq<u8>, Seq<u8>> {
        cache_contents(self.storage)
    }

    /// The leaves map of the backing store, which this tree never touches.
    pub closed spec fn lm(&self) -> Map<Seq<u8>, Seq<u8>> {
        leaves_contents(self.storage)
    }

    /// The metadata map of the backing store, which this tree never touches.
    pub closed spec fn mm(&self) -> Map<Seq<u8>, Seq<u8>> {
        metadata_contents(self.storage)
    }

    /// The depth is in range and the empty table matches the spec table.
    pub closed spec fn well_formed(&self) -> bool {
        &&& 1 <= self.depth <= 64
        &&& self.empty@.len() == self.depth + 1
        &&& forall|l: int| 0 <= l <= self.depth ==> (#[trigger] self.empty@[l]@) == smt_empty_spec(
            l as nat,
        )
    }

    /// Opens a sparse tree of the given depth over the store at `path`.
    pub fn new(storage_path: &str, depth: usize) -> (r: Result<Self, TreeError>)
        requires
            1 <= depth <= 64,
        ensures
            r matches Ok(t) ==> t.well_formed() && t.depth_spec() == depth,
    {
        let storage = LmdbStorage::new(storage_path)?;
        let empty = smt_empty_table(depth);
        Ok(SparseMerkleTree { storage, empty, depth })
    }

    /// Opens a sparse tree of the default depth.
    pub fn new_default(storage_path: &str) -> (r: Result<Self, TreeError>)
        ensures
            r matches Ok(t) ==> t.well_formed() && t.depth_spec() == DEFAULT_DEPTH,
    {
        Self::new(storage_path, DEFAULT_DEPTH)
    }

    /// The leaf position of `kh`: its top `depth` bits, most significant
    /// first.
    fn leaf_index_from_key_hash(&self, kh: &Vec<u8>) -> (r: u64)
        requires
            self.well_formed(),
            kh@.len() == 32,
        ensures
            r == key_index_spec(kh@, self.depth_spec()),
            r < pow2(self.depth_spec() as nat),
    {
        proof {
            vstd::arithmetic::power2::lemma2_to64();
        vstd::arithmetic::power2::lemma2_to64_rest();
        }
        let mut idx: u64 = 0;
        let mut i: usize = 0;
        while i < self.depth
            invariant
                self.well_formed(),
                kh@.len() == 32,
                i <= self.depth,
                idx == key_index_spec(kh@, i as int),
                idx < pow2(i as nat),
        decreases self.depth - i,
        {
            proof {
                vstd::arithmetic::power2::lemma2_to64();
        vstd::arithmetic::power2::lemma2_to64_rest();
                vstd::arithmetic::power2::lemma_pow2_strictly_increases(i as nat, 64);
            }
            let byte = kh[i / 8];
            let off = (7 - (i % 8)) as u8;
            proof {
                vstd::bits::lemma_u8_pow2_no_overflow(off as nat);
                vstd::bits::lemma_u8_shl_is_mul(1u8, off);
            }
            let divisor = 1u8 << off;
            proof {
                vstd::arithmetic::power2::lemma_pow2_pos(off as nat);
            }
            let bit = (byte / divisor) % 2;
            proof {
                assert(bit == bit_of(kh@, i as int));
                vstd::arithmetic::power2::lemma_pow2_unfold((i + 1) as nat);
                if i + 1 < 64 {
                    vstd::arithmetic::power2::lemma_pow2_strictly_increases((i + 1) as nat, 64);
                }
                assert(idx * 2 + bit < pow2((i + 1) as nat));
                assert(pow2((i + 1) as nat) <= pow2(64));
            }
            idx = idx * 2 + (bit as u64);
            i = i + 1;
        }
        idx
    }

    /// Binds `value` to `key`, rewriting the whole path from the leaf to the
    /// root in one transaction; the rest of the store is untouched.
    pub fn insert(&mut self, key: &[u8], value: &[u8]) -> (r: Result<(), TreeError>)
        requires
            old(self).well_formed(),
        ensures
            final(self).well_formed(),
            final(self).depth_spec() == old(self).depth_spec(),
            r matches Ok(_) ==> final(self).cm() == insert_all(
                old(self).cm(),
                path_pairs(
                    old(self).cm(),
                    smt_leaf_spec(keccak_spec(key@), value@),
                    key_index_spec(keccak_spec(key@), old(self).depth_spec()),
                    old(self).depth_spec(),
                ),
            ) && final(self).lm() == old(self).lm() && final(self).mm() == old(self).mm(),
            r matches Err(_) ==> *final(self) == *old(self),
            r matches Err(e) ==> e == TreeError::StorageError,
    {
        let kh = hash_data(key);
        let leaf_hash = smt_hash_leaf(kh.as_slice(), value);
        let idx = self.leaf_index_from_key_hash(&kh);
        let ghost cm0 = self.cm();
        let ghost lh = leaf_hash@;
        let ghost gidx = idx as int;
        let ghost d = self.depth_spec();
        let mut updates: Vec<(u64, u64, Vec<u8>)> = Vec::new();
        updates.push((0, idx, copy_bytes(&leaf_hash)));
        let mut cur = leaf_hash;
        let mut cur_idx = idx;
        let mut level: usize = 0;
        proof {
            vstd::arithmetic::power2::lemma2_to64();
        vstd::arithmetic::power2::lemma2_to64_rest();
            assert(Seq::new(updates@.len(), |t: int| (
                node_key_spec(updates@[t].0 as int, updates@[t].1),
                updates@[t].2@,
            )) =~~= path_pairs(cm0, lh, gidx, d).take(1));
        }
        while level < self.depth
            invariant
                self.well_formed(),
                *self == *old(self),
                cm0 == self.cm(),
                d == self.depth_spec(),
                level <= self.depth,
                0 <= gidx < pow2(d as nat),
                d == self.depth_spec(),
                cur_idx == gidx / pow2(level as nat) as int,
                cur@ == path_val(cm0, lh, gidx, level as int),
                updates@.len() == level + 1,
                forall|t: int| 0 <= t < updates@.len() ==> (#[trigger] updates@[t].0) < 100,
                Seq::new(updates@.len(), |t: int| (
                    node_key_spec(updates@[t].0 as int, updates@[t].1),
                    updates@[t].2@,
                )) == path_pairs(cm0, lh, gidx, d).take(level + 1),
            decreases self.depth - level,
        {
            let sib_idx = if cur_idx % 2 == 0 {
                cur_idx + 1
            } else {
                cur_idx - 1
            };
            let sib = match self.storage.get_node(level as u64, sib_idx) {
                Ok(Some(v)) => v,
                Ok(None) => copy_bytes(&self.empty[level]),
                Err(e) => {
                    return Err(e);
                },
            };
            proof {
                assert(sib@ == node_or_empty(cm0, level as int, sibling_index(cur_idx as int)));
            }
            let parent = if cur_idx % 2 == 0 {
                smt_hash_internal(cur.as_slice(), sib.as_slice())
            } else {
                smt_hash_internal(sib.as_slice(), cur.as_slice())
            };
            cur_idx = cur_idx / 2;
            let next_level = level + 1;
            updates.push(((next_level) as u64, cur_idx, copy_bytes(&parent)));
            cur = parent;
            level = next_level;
            proof {
                vstd::arithmetic::power2::lemma_pow2_unfold(level as nat);
                vstd::arithmetic::power2::lemma_pow2_pos((level - 1) as nat);
                vstd::arithmetic::power2::lemma_pow2_pos(level as nat);
                vstd::arithmetic::div_mod::lemma_div_denominator(
                    gidx,
                    pow2((level - 1) as nat) as int,
                    2,
                );
                assert(cur_idx == gidx / pow2(level as nat) as int);
                assert(cur@ == path_val(cm0, lh, gidx, level as int));
                assert(Seq::new(updates@.len(), |t: int| (
                    node_key_spec(updates@[t].0 as int, updates@[t].1),
                    updates@[t].2@,
                )) =~~= path_pairs(cm0, lh, gidx, d).take(level + 1));
            }
        }
        proof {
            assert(path_pairs(cm0, lh, gidx, d).take(d + 1) =~= path_pairs(cm0, lh, gidx, d));
        }
        match self.storage.store_path_batch(&updates) {
            Ok(_) => {
                proof {
                    assert(self.cm() == insert_all(cm0, path_pairs(cm0, lh, gidx, d)));
                }
                Ok(())
            },
            Err(e) => Err(e),
        }
    }

    /// The materialized root, or the empty root when nothing was inserted.
    pub fn root(&self) -> (r: Result<Vec<u8>, TreeError>)
        requires
            self.well_formed(),
        ensures
            r matches Ok(h) ==> h@ == node_or_empty(self.cm(), self.depth_spec(), 0),
    {
        match self.storage.get_node(self.depth as u64, 0) {
            Ok(Some(v)) => Ok(v),
            Ok(None) => Ok(copy_bytes(&self.empty[self.depth])),
            Err(e) => Err(e),
        }
    }

    /// The proof for `key`: exactly `depth` hex siblings, each the
    /// materialized or empty hash beside the key's path.
    pub fn get_proof(&self, key: &[u8]) -> (r: Result<SparseMerkleProof, TreeError>)
        requires
            self.well_formed(),
        ensures
            r matches Ok(p) ==> p@ == proof_sibs(
                self.cm(),
                key_index_spec(keccak_spec(key@), self.depth_spec()),
                self.depth_spec(),
            ).map_values(|h: Seq<u8>| hex_chars_of(h)),
            r matches Ok(p) ==> p.siblings@.len() == self.depth_spec(),
    {
        let kh = hash_data(key);
        let idx = self.leaf_index_from_key_hash(&kh);
        let ghost gidx = idx as int;
        let ghost d = self.depth_spec();
        let mut siblings: Vec<String> = Vec::new();
        let mut cur_idx = idx;
        let mut level: usize = 0;
        proof {
            vstd::arithmetic::power2::lemma2_to64();
        vstd::arithmetic::power2::lemma2_to64_rest();
        }
        while level < self.depth
            invariant
                self.well_formed(),
                d == self.depth_spec(),
                level <= self.depth,
                cur_idx == gidx / pow2(level as nat) as int,
                gidx < pow2(d as nat),
                gidx >= 0,
                siblings@.len() == level,
                forall|l: int|
                    0 <= l < level ==> (#[trigger] siblings@[l]@) == hex_chars_of(
                        proof_sibs(self.cm(), gidx, d)[l],
                    ),
            decreases self.depth - level,
        {
            let sib_idx = if cur_idx % 2 == 0 {
                cur_idx + 1
            } else {
                cur_idx - 1
            };
            let sib = match self.storage.get_node(level as u64, sib_idx) {
                Ok(Some(v)) => v,
                Ok(None) => copy_bytes(&self.empty[level]),
                Err(e) => {
                    return Err(e);
                },
            };
            siblings.push(encode_hex(sib.as_slice()));
            cur_idx = cur_idx / 2;
            level = level + 1;
            proof {
                vstd::arithmetic::power2::lemma_pow2_unfold(level as nat);
                vstd::arithmetic::power2::lemma_pow2_pos((level - 1) as nat);
                vstd::arithmetic::power2::lemma_pow2_pos(level as nat);
                vstd::arithmetic::div_mod::lemma_div_denominator(
                    gidx,
                    pow2((level - 1) as nat) as int,
                    2,
                );
                assert(proof_sibs(self.cm(), gidx, d)[level - 1] == node_or_empty(
                    self.cm(),
                    level - 1,
                    sibling_index(gidx / pow2((level - 1) as nat) as int),
                ));
            }
        }
        proof {
            assert(Seq::new(siblings@.len(), |i: int| siblings@[i]@) =~= proof_sibs(
                self.cm(),
                gidx,
                d,
            ).map_values(|h: Seq<u8>| hex_chars_of(h)));
        }
        Ok(SparseMerkleProof { siblings })
    }

    /// Membership verification: folds `hash_leaf(H(key), value)` with the
    /// proof's siblings along the key's path and accepts exactly when the
    /// fold reproduces `root`. A wrong length or malformed hex rejects.
    pub fn verify_membership(
        &self,
        key: &[u8],
        value: &[u8],
        proof: &SparseMerkleProof,
        root: &[u8],
    ) -> (r: bool)
        requires
            self.well_formed(),
        ensures
            r == smt_verify_spec(
                smt_leaf_spec(keccak_spec(key@), value@),
                key_index_spec(keccak_spec(key@), self.depth_spec()),
                proof@,
                root@,
                self.depth_spec(),
            ),
    {
        if proof.siblings.len() != self.depth {
            return false;
        }
        let kh = hash_data(key);
        let start = smt_hash_leaf(kh.as_slice(), value);
        let idx = self.leaf_index_from_key_hash(&kh);
        self.fold_and_check(start, idx, proof, root)
    }

    /// Non-membership verification: the same fold started from the empty
    /// leaf hash.
    pub fn verify_non_membership(&self, key: &[u8], proof: &SparseMerkleProof, root: &[u8]) -> (r:
        bool)
        requires
            self.well_formed(),
        ensures
            r == smt_verify_spec(
                smt_empty_spec(0),
                key_index_spec(keccak_spec(key@), self.depth_spec()),
                proof@,
                root@,
                self.depth_spec(),
            ),
    {
        if proof.siblings.len() != self.depth {
            return false;
        }
        let kh = hash_data(key);
        let start = copy_bytes(&self.empty[0]);
        let idx = self.leaf_index_from_key_hash(&kh);
        self.fold_and_check(start, idx, proof, root)
    }

    /// The shared verification fold.
    fn fold_and_check(&self, start: Vec<u8>, idx: u64, proof: &SparseMerkleProof, root: &[u8]) -> (r:
        bool)
        requires
            proof.siblings@.len() == self.depth_spec(),
        ensures
            r == smt_verify_from(start@, idx as int, proof@, root@),
    {
        let mut cur = start;
        let mut cur_idx = idx;
        let n = proof.siblings.len();
        let mut j: usize = 0;
        proof {
            assert(proof@.skip(0) =~= proof@);
        }
        while j < n
            invariant
                n == proof.siblings@.len(),
                j <= n,
                smt_verify_from(start@, idx as int, proof@, root@) == smt_verify_from(
                    cur@,
                    cur_idx as int,
                    proof@.skip(j as int),
                    root@,
                ),
            decreases n - j,
        {
            proof {
                assert(proof@.skip(j as int)[0] == proof@[j as int]);
                assert(proof@.skip(j as int).drop_first() =~= proof@.skip(j as int + 1));
            }
            let sib = match decode_hex(proof.siblings[j].as_str()) {
                Some(bytes) => bytes,
                None => {
                    return false;
                },
            };
            let next = if cur_idx % 2 == 0 {
                smt_hash_internal(cur.as_slice(), sib.as_slice())
            } else {
                smt_hash_internal(sib.as_slice(), cur.as_slice())
            };
            cur = next;
            cur_idx = cur_idx / 2;
            j = j + 1;
        }
        proof {
            assert(proof@.skip(n as int) =~= Seq::<Seq<char>>::empty());
        }
        bytes_eq(cur.as_slice(), root)
    }
}

/// The top `depth` bits of any digest are a position below `2^depth`.
pub proof fn lemma_key_index_range(kh: Seq<u8>, depth: int)
    requires
        depth >= 0,
    ensures
        0 <= key_index_spec(kh, depth) < pow2(depth as nat),
    decreases depth,
{
    if depth == 0 {
        assert(pow2(0) == 1) by {
            vstd::arithmetic::power2::lemma2_to64();
        vstd::arithmetic::power2::lemma2_to64_rest();
        }
    } else {
        lemma_key_index_range(kh, depth - 1);
        vstd::arithmetic::power2::lemma_pow2_unfold(depth as nat);
        assert(0 <= bit_of(kh, depth - 1) < 2) by {
            assert(kh[(depth - 1) / 8] as int >= 0);
            vstd::arithmetic::power2::lemma_pow2_pos((7 - ((depth - 1) % 8)) as nat);
        }
    }
}

/// A position beside the inserted path is untouched by the insertion.
pub proof fn lemma_sibling_untouched(
    cm: Map<Seq<u8>, Seq<u8>>,
    lh: Seq<u8>,
    idx: int,
    depth: int,
    l: int,
)
    requires
        1 <= depth <= 64,
        0 <= l < depth,
        0 <= idx < pow2(depth as nat),
    ensures
        node_or_empty(
            insert_all(cm, path_pairs(cm, lh, idx, depth)),
            l,
            sibling_index(idx / pow2(l as nat) as int),
        ) == node_or_empty(cm, l, sibling_index(idx / pow2(l as nat) as int)),
{
    let pp = path_pairs(cm, lh, idx, depth);
    let ci = idx / pow2(l as nat) as int;
    let si = sibling_index(ci);
    lemma_index_bounds(idx, depth);
    assert(0 <= si < 0x1_0000_0000_0000_0000) by {
        vstd::arithmetic::power2::lemma_pow2_pos(l as nat);
    }
    assert forall|t: int| 0 <= t < pp.len() implies (#[trigger] pp[t].0) != node_key_spec(
        l,
        si as u64,
    ) by {
        let pt = idx / pow2(t as nat) as int;
        if pp[t].0 == node_key_spec(l, si as u64) {
            lemma_node_key_injective(t, (pt as u64), l, (si as u64));
            assert(t == l);
            assert((pt as u64) == (si as u64));
            assert(pt == ci && 0 <= pt);
            assert(si != ci);
        }
    }
    lemma_insert_all_frame(cm, pp, node_key_spec(l, si as u64));
}

/// Every level of the path is bounded by the key space.
pub(crate) proof fn lemma_index_bounds(idx: int, depth: int)
    requires
        0 <= idx < pow2(depth as nat),
        0 <= depth <= 64,
    ensures
        forall|t: int|
            #![trigger pow2(t as nat)]
            0 <= t ==> 0 <= idx / (pow2(t as nat) as int) < 0x1_0000_0000_0000_0000,
        forall|t: int|
            #![trigger pow2(t as nat)]
            t >= depth ==> idx / (pow2(t as nat) as int) == 0,
{
    assert forall|t: int| #![trigger pow2(t as nat)] 0 <= t implies 0 <= idx / (pow2(
        t as nat,
    ) as int) < 0x1_0000_0000_0000_0000 by {
        vstd::arithmetic::power2::lemma_pow2_pos(t as nat);
        vstd::arithmetic::div_mod::lemma_div_is_ordered_by_denominator(idx, 1, pow2(t as nat) as int);
        assert(pow2(depth as nat) <= pow2(64)) by {
            if depth < 64 {
                vstd::arithmetic::power2::lemma_pow2_strictly_increases(depth as nat, 64);
            }
        }
        vstd::arithmetic::power2::lemma2_to64();
        vstd::arithmetic::power2::lemma2_to64_rest();
    }
    assert forall|t: int| #![trigger pow2(t as nat)] t >= depth && t >= 0 implies idx / (pow2(
        t as nat,
    ) as int) == 0 by {
        vstd::arithmetic::power2::lemma_pow2_pos(t as nat);
        if (depth as nat) < (t as nat) {
            vstd::arithmetic::power2::lemma_pow2_strictly_increases(depth as nat, t as nat);
        }
        vstd::arithmetic::div_mod::lemma_basic_div(idx, pow2(t as nat) as int);
    }
}

/// After an insertion, every node on the written path reads back as the
/// written hash.
pub proof fn lemma_path_materialized(
    cm: Map<Seq<u8>, Seq<u8>>,
    lh: Seq<u8>,
    idx: int,
    depth: int,
    l: int,
)
    requires
        1 <= depth <= 64,
        0 <= l <= depth,
        0 <= idx < pow2(depth as nat),
    ensures
        node_or_empty(
            insert_all(cm, path_pairs(cm, lh, idx, depth)),
            l,
            idx / pow2(l as nat) as int,
        ) == path_val(cm, lh, idx, l),
        insert_all(cm, path_pairs(cm, lh, idx, depth)).contains_key(
            node_key_spec(l, (idx / pow2(l as nat) as int) as u64),
        ),
{
    let pp = path_pairs(cm, lh, idx, depth);
    lemma_index_bounds(idx, depth);
    assert forall|t: int| l < t < pp.len() implies (#[trigger] pp[t].0) != pp[l].0 by {
        if pp[t].0 == pp[l].0 {
            lemma_node_key_injective(
                t,
                ((idx / pow2(t as nat) as int) as u64),
                l,
                ((idx / pow2(l as nat) as int) as u64),
            );
        }
    }
    lemma_insert_all_lookup(cm, pp, l);
}

/// Folding the written path value at level `l` with the served siblings of
/// the levels above reproduces the written root.
proof fn lemma_fold_to_root(cm: Map<Seq<u8>, Seq<u8>>, lh: Seq<u8>, idx: int, depth: int, l: int)
    requires
        1 <= depth <= 64,
        0 <= l <= depth,
        0 <= idx < pow2(depth as nat),
    ensures
        smt_fold_raw(
            path_val(cm, lh, idx, l),
            idx / pow2(l as nat) as int,
            proof_sibs(insert_all(cm, path_pairs(cm, lh, idx, depth)), idx, depth).skip(l),
        ) == path_val(cm, lh, idx, depth),
    decreases depth - l,
{
    let cm1 = insert_all(cm, path_pairs(cm, lh, idx, depth));
    let sibs = proof_sibs(cm1, idx, depth);
    if l == depth {
        assert(sibs.skip(depth) =~= Seq::<Seq<u8>>::empty());
    } else {
        assert(sibs.skip(l).len() == depth - l);
        assert(sibs.skip(l)[0] == sibs[l]);
        assert(sibs[l] == node_or_empty(
            cm1,
            l,
            sibling_index(idx / pow2(l as nat) as int),
        ));
        lemma_sibling_untouched(cm, lh, idx, depth, l);
        vstd::arithmetic::power2::lemma_pow2_unfold((l + 1) as nat);
        vstd::arithmetic::power2::lemma_pow2_pos(l as nat);
        vstd::arithmetic::power2::lemma_pow2_pos((l + 1) as nat);
        vstd::arithmetic::div_mod::lemma_div_denominator(idx, pow2(l as nat) as int, 2);
        assert((idx / pow2(l as nat) as int) / 2 == idx / pow2((l + 1) as nat) as int);
        assert(smt_fold_raw(path_val(cm, lh, idx, l), idx / pow2(l as nat) as int, sibs.skip(l))
            == smt_fold_raw(
            path_val(cm, lh, idx, l + 1),
            idx / pow2((l + 1) as nat) as int,
            sibs.skip(l).drop_first(),
        ));
        assert(sibs.skip(l).drop_first() =~= sibs.skip(l + 1));
        lemma_fold_to_root(cm, lh, idx, depth, l + 1);
    }
}

/// Hex round trip of a whole fold: verifying over the hex-encoded siblings
/// decides exactly whether the raw fold reaches the root.
proof fn lemma_hex_fold(acc: Seq<u8>, idx: int, sibs: Seq<Seq<u8>>, root: Seq<u8>)
    ensures
        smt_verify_from(acc, idx, sibs.map_values(|h: Seq<u8>| hex_chars_of(h)), root) == (
        smt_fold_raw(acc, idx, sibs) == root),
    decreases sibs.len(),
{
    let mapped = sibs.map_values(|h: Seq<u8>| hex_chars_of(h));
    if sibs.len() == 0 {
    } else {
        crate::hexstr::lemma_hex_round_trip(sibs[0]);
        assert(mapped[0] == hex_chars_of(sibs[0]));
        assert(mapped.drop_first() =~= sibs.drop_first().map_values(
            |h: Seq<u8>| hex_chars_of(h),
        ));
        lemma_hex_fold(
            if idx % 2 == 0 {
                smt_internal_spec(acc, sibs[0])
            } else {
                smt_internal_spec(sibs[0], acc)
            },
            idx / 2,
            sibs.drop_first(),
            root,
        );
    }
}

/// After `insert(key, value)`, the proof served for `key` verifies as a
/// membership proof of `(key, value)` against the served root.
pub proof fn lemma_smt_membership_round_trip(
    cm: Map<Seq<u8>, Seq<u8>>,
    key: Seq<u8>,
    value: Seq<u8>,
    depth: int,
)
    requires
        1 <= depth <= 64,
    ensures
        ({
            let kh = keccak_spec(key);
            let idx = key_index_spec(kh, depth);
            let lh = smt_leaf_spec(kh, value);
            let cm1 = insert_all(cm, path_pairs(cm, lh, idx, depth));
            smt_verify_spec(
                lh,
                idx,
                proof_sibs(cm1, idx, depth).map_values(|h: Seq<u8>| hex_chars_of(h)),
                node_or_empty(cm1, depth, 0),
                depth,
            )
        }),
{
    let kh = keccak_spec(key);
    let idx = key_index_spec(kh, depth);
    let lh = smt_leaf_spec(kh, value);
    let cm1 = insert_all(cm, path_pairs(cm, lh, idx, depth));
    lemma_key_index_range(kh, depth);
    lemma_index_bounds(idx, depth);
    assert(pow2(0) == 1) by {
        vstd::arithmetic::power2::lemma2_to64();
        vstd::arithmetic::power2::lemma2_to64_rest();
    }
    assert(idx / pow2(0) as int == idx);
    assert(path_val(cm, lh, idx, 0) == lh);
    assert(proof_sibs(cm1, idx, depth).skip(0) =~= proof_sibs(cm1, idx, depth));
    lemma_fold_to_root(cm, lh, idx, depth, 0);
    lemma_hex_fold(lh, idx, proof_sibs(cm1, idx, depth), node_or_empty(cm1, depth, 0));
    lemma_path_materialized(cm, lh, idx, depth, depth);
    assert(idx / pow2(depth as nat) as int == 0);
}

/// The store's node entries form a consistent sparse tree of the given
/// depth: every materialized non-leaf node in range is the internal hash of
/// its two children (materialized or empty), and a materialized child always
/// has a materialized parent.
pub open spec fn smt_consistent(cm: Map<Seq<u8>, Seq<u8>>, depth: int) -> bool {
    &&& forall|l: int, i: int|
        #![trigger node_key_spec(l, i as u64)]
        1 <= l <= depth && 0 <= i < pow2((depth - l) as nat) && cm.contains_key(
            node_key_spec(l, i as u64),
        ) ==> cm[node_key_spec(l, i as u64)] == smt_internal_spec(
            node_or_empty(cm, l - 1, 2 * i),
            node_or_empty(cm, l - 1, 2 * i + 1),
        )
    &&& forall|l: int, i: int|
        #![trigger node_key_spec(l, i as u64)]
        0 <= l < depth && 0 <= i < pow2((depth - l) as nat) && cm.contains_key(
            node_key_spec(l, i as u64),
        ) ==> cm.contains_key(node_key_spec(l + 1, (i / 2) as u64))
}

/// A quotient below a product is below the other factor.
pub(crate) proof fn lemma_div_bound(x: int, a: int, b: int)
    requires
        0 <= x < a * b,
        b >= 1,
    ensures
        0 <= x / b < a,
{
    vstd::arithmetic::div_mod::lemma_fundamental_div_mod(x, b);
    assert(x / b < a) by (nonlinear_arith)
        requires
            0 <= x < a * b,
            b >= 1,
            x == b * (x / b) + x % b,
            0 <= x % b < b,
    ;
    assert(x / b >= 0) by (nonlinear_arith)
        requires
            0 <= x,
            b >= 1,
            x == b * (x / b) + x % b,
            0 <= x % b < b,
    ;
}

/// Positions along a path stay in range of their level.
pub(crate) proof fn lemma_level_position_bounds(idx: int, depth: int, l: int)
    requires
        0 <= idx < pow2(depth as nat),
        0 <= l <= depth <= 64,
    ensures
        0 <= idx / (pow2(l as nat) as int),
        idx / (pow2(l as nat) as int) < pow2((depth - l) as nat),
{
    vstd::arithmetic::power2::lemma_pow2_pos(l as nat);
    vstd::arithmetic::power2::lemma_pow2_pos((depth - l) as nat);
    vstd::arithmetic::power2::lemma_pow2_adds((depth - l) as nat, l as nat);
    lemma_div_bound(idx, pow2((depth - l) as nat) as int, pow2(l as nat) as int);
}

/// A slot in range of its level fits the key space.
pub(crate) proof fn lemma_slot_fits(depth: int, l: int, i: int)
    requires
        0 <= l <= depth <= 64,
        0 <= i < pow2((depth - l) as nat),
    ensures
        0 <= i < 0x1_0000_0000_0000_0000,
{
    assert(pow2((depth - l) as nat) <= pow2(64)) by {
        if depth - l < 64 {
            vstd::arithmetic::power2::lemma_pow2_strictly_increases((depth - l) as nat, 64);
        }
    }
    vstd::arithmetic::power2::lemma2_to64();
        vstd::arithmetic::power2::lemma2_to64_rest();
}

/// A store with no materialized nodes is consistent.
pub proof fn lemma_empty_consistent(depth: int)
    ensures
        smt_consistent(Map::empty(), depth),
{
}

/// One insertion keeps the store consistent.
pub proof fn lemma_insert_preserves_consistency(
    cm: Map<Seq<u8>, Seq<u8>>,
    key: Seq<u8>,
    value: Seq<u8>,
    depth: int,
)
    requires
        1 <= depth <= 64,
        smt_consistent(cm, depth),
    ensures
        smt_consistent(
            insert_all(
                cm,
                path_pairs(
                    cm,
                    smt_leaf_spec(keccak_spec(key), value),
                    key_index_spec(keccak_spec(key), depth),
                    depth,
                ),
            ),
            depth,
        ),
{
    let kh = keccak_spec(key);
    let idx = key_index_spec(kh, depth);
    let lh = smt_leaf_spec(kh, value);
    let pp = path_pairs(cm, lh, idx, depth);
    let cm1 = insert_all(cm, pp);
    lemma_key_index_range(kh, depth);
    lemma_index_bounds(idx, depth);
    // Internal-node equations.
    assert forall|l: int, i: int|
        #![trigger node_key_spec(l, i as u64)]
        1 <= l <= depth && 0 <= i < pow2((depth - l) as nat) && cm1.contains_key(
            node_key_spec(l, i as u64),
        ) implies cm1[node_key_spec(l, i as u64)] == smt_internal_spec(
        node_or_empty(cm1, l - 1, 2 * i),
        node_or_empty(cm1, l - 1, 2 * i + 1),
    ) by {
        lemma_level_position_bounds(idx, depth, l);
        lemma_level_position_bounds(idx, depth, l - 1);
        lemma_slot_fits(depth, l, i);
        let c = idx / pow2((l - 1) as nat) as int;
        vstd::arithmetic::power2::lemma_pow2_unfold(l as nat);
        vstd::arithmetic::power2::lemma_pow2_pos((l - 1) as nat);
        vstd::arithmetic::power2::lemma_pow2_pos(l as nat);
        vstd::arithmetic::div_mod::lemma_div_denominator(idx, pow2((l - 1) as nat) as int, 2);
        vstd::arithmetic::div_mod::lemma_fundamental_div_mod(c, 2);
        if i == idx / pow2(l as nat) as int {
            // A path node: its on-path child carries the written value and
            // its other child is the untouched sibling.
            lemma_path_materialized(cm, lh, idx, depth, l);
            lemma_path_materialized(cm, lh, idx, depth, l - 1);
            lemma_sibling_untouched(cm, lh, idx, depth, l - 1);
            assert(c == 2 * i + c % 2);
            if c % 2 == 0 {
                assert(node_or_empty(cm1, l - 1, 2 * i) == path_val(cm, lh, idx, l - 1));
                assert(node_or_empty(cm1, l - 1, 2 * i + 1) == node_or_empty(
                    cm,
                    l - 1,
                    sibling_index(c),
                ));
            } else {
                assert(node_or_empty(cm1, l - 1, 2 * i + 1) == path_val(cm, lh, idx, l - 1));
                assert(node_or_empty(cm1, l - 1, 2 * i) == node_or_empty(
                    cm,
                    l - 1,
                    sibling_index(c),
                ));
            }
        } else {
            // An off-path node: untouched, and so are both its children.
            lemma_offpath_untouched(cm, lh, idx, depth, l, i);
            lemma_offpath_child_untouched(cm, lh, idx, depth, l, i, 2 * i);
            lemma_offpath_child_untouched(cm, lh, idx, depth, l, i, 2 * i + 1);
            assert(cm.contains_key(node_key_spec(l, i as u64)));
        }
    }
    // Upward closure.
    assert forall|l: int, i: int|
        #![trigger node_key_spec(l, i as u64)]
        0 <= l < depth && 0 <= i < pow2((depth - l) as nat) && cm1.contains_key(
            node_key_spec(l, i as u64),
        ) implies cm1.contains_key(node_key_spec(l + 1, (i / 2) as u64)) by {
        lemma_level_position_bounds(idx, depth, l);
        lemma_level_position_bounds(idx, depth, l + 1);
        lemma_slot_fits(depth, l, i);
        vstd::arithmetic::div_mod::lemma_div_is_ordered_by_denominator(i, 1, 2);
        vstd::arithmetic::power2::lemma_pow2_unfold((l + 1) as nat);
        vstd::arithmetic::power2::lemma_pow2_pos(l as nat);
        vstd::arithmetic::power2::lemma_pow2_pos((l + 1) as nat);
        vstd::arithmetic::div_mod::lemma_div_denominator(idx, pow2(l as nat) as int, 2);
        if i == idx / pow2(l as nat) as int {
            lemma_path_materialized(cm, lh, idx, depth, l + 1);
        } else {
            lemma_offpath_untouched(cm, lh, idx, depth, l, i);
            assert(cm.contains_key(node_key_spec(l, i as u64)));
            assert(cm.contains_key(node_key_spec(l + 1, (i / 2) as u64)));
            if i / 2 == idx / pow2((l + 1) as nat) as int {
                lemma_path_materialized(cm, lh, idx, depth, l + 1);
            } else {
                lemma_offpath_untouched(cm, lh, idx, depth, l + 1, i / 2);
            }
        }
    }
}

/// An off-path position keeps its binding through an insertion.
pub proof fn lemma_offpath_untouched(
    cm: Map<Seq<u8>, Seq<u8>>,
    lh: Seq<u8>,
    idx: int,
    depth: int,
    l: int,
    i: int,
)
    requires
        1 <= depth <= 64,
        0 <= idx < pow2(depth as nat),
        0 <= l <= depth,
        0 <= i < 0x1_0000_0000_0000_0000,
        i != idx / pow2(l as nat) as int,
    ensures
        node_or_empty(insert_all(cm, path_pairs(cm, lh, idx, depth)), l, i) == node_or_empty(
            cm,
            l,
            i,
        ),
        insert_all(cm, path_pairs(cm, lh, idx, depth)).contains_key(node_key_spec(l, i as u64))
            == cm.contains_key(node_key_spec(l, i as u64)),
{
    let pp = path_pairs(cm, lh, idx, depth);
    lemma_index_bounds(idx, depth);
    assert forall|t: int| 0 <= t < pp.len() implies (#[trigger] pp[t].0) != node_key_spec(
        l,
        i as u64,
    ) by {
        let pt = idx / pow2(t as nat) as int;
        if pp[t].0 == node_key_spec(l, i as u64) {
            lemma_node_key_injective(t, (pt as u64), l, (i as u64));
        }
    }
    lemma_insert_all_frame(cm, pp, node_key_spec(l, i as u64));
}

/// A child of an off-path node is itself off the path.
proof fn lemma_offpath_child_untouched(
    cm: Map<Seq<u8>, Seq<u8>>,
    lh: Seq<u8>,
    idx: int,
    depth: int,
    l: int,
    i: int,
    child: int,
)
    requires
        1 <= l <= depth <= 64,
        0 <= idx < pow2(depth as nat),
        0 <= i < pow2((depth - l) as nat),
        i != idx / pow2(l as nat) as int,
        child == 2 * i || child == 2 * i + 1,
    ensures
        node_or_empty(insert_all(cm, path_pairs(cm, lh, idx, depth)), l - 1, child)
            == node_or_empty(cm, l - 1, child),
{
    vstd::arithmetic::power2::lemma_pow2_unfold(l as nat);
    vstd::arithmetic::power2::lemma_pow2_pos((l - 1) as nat);
    vstd::arithmetic::power2::lemma_pow2_pos(l as nat);
    vstd::arithmetic::div_mod::lemma_div_denominator(idx, pow2((l - 1) as nat) as int, 2);
    let c = idx / pow2((l - 1) as nat) as int;
    if child == c {
        vstd::arithmetic::div_mod::lemma_fundamental_div_mod(c, 2);
        assert(c / 2 == i);
        assert(false);
    }
    lemma_level_position_bounds(idx, depth, l);
    assert(0 <= child < 0x1_0000_0000_0000_0000) by {
        vstd::arithmetic::power2::lemma_pow2_pos((depth - l) as nat);
        assert(pow2((depth - l) as nat) <= pow2(63)) by {
            if depth - l < 63 {
                vstd::arithmetic::power2::lemma_pow2_strictly_increases((depth - l) as nat, 63);
            }
        }
        vstd::arithmetic::power2::lemma2_to64();
        vstd::arithmetic::power2::lemma2_to64_rest();
        assert(child <= 2 * i + 1);
        assert(2 * i + 1 < 2 * pow2((depth - l) as nat));
        assert(2 * pow2((depth - l) as nat) <= 2 * 0x8000_0000_0000_0000);
    }
    lemma_offpath_untouched(cm, lh, idx, depth, l - 1, child);
}

/// In a consistent store, folding any leaf slot with its served siblings
/// reproduces the stored root.
proof fn lemma_consistent_fold(cm: Map<Seq<u8>, Seq<u8>>, idx: int, depth: int, l: int)
    requires
        1 <= depth <= 64,
        smt_consistent(cm, depth),
        0 <= idx < pow2(depth as nat),
        0 <= l <= depth,
    ensures
        smt_fold_raw(
            node_or_empty(cm, l, idx / pow2(l as nat) as int),
            idx / pow2(l as nat) as int,
            proof_sibs(cm, idx, depth).skip(l),
        ) == node_or_empty(cm, depth, 0),
    decreases depth - l,
{
    let sibs = proof_sibs(cm, idx, depth);
    if l == depth {
        assert(sibs.skip(depth) =~= Seq::<Seq<u8>>::empty());
        lemma_index_bounds(idx, depth);
    } else {
        lemma_level_position_bounds(idx, depth, l);
        lemma_level_position_bounds(idx, depth, l + 1);
        let c = idx / pow2(l as nat) as int;
        let p = idx / pow2((l + 1) as nat) as int;
        vstd::arithmetic::power2::lemma_pow2_unfold((l + 1) as nat);
        vstd::arithmetic::power2::lemma_pow2_unfold((depth - l) as nat);
        vstd::arithmetic::power2::lemma_pow2_pos(l as nat);
        vstd::arithmetic::power2::lemma_pow2_pos((l + 1) as nat);
        vstd::arithmetic::div_mod::lemma_div_denominator(idx, pow2(l as nat) as int, 2);
        vstd::arithmetic::div_mod::lemma_fundamental_div_mod(c, 2);
        assert(p == c / 2);
        assert(c == 2 * p + c % 2);
        assert(sibs.skip(l)[0] == sibs[l]);
        assert(sibs[l] == node_or_empty(cm, l, sibling_index(c)));
        let combined = if c % 2 == 0 {
            smt_internal_spec(node_or_empty(cm, l, c), node_or_empty(cm, l, sibling_index(c)))
        } else {
            smt_internal_spec(node_or_empty(cm, l, sibling_index(c)), node_or_empty(cm, l, c))
        };
        assert(combined == smt_internal_spec(
            node_or_empty(cm, l, 2 * p),
            node_or_empty(cm, l, 2 * p + 1),
        ));
        if cm.contains_key(node_key_spec(l + 1, p as u64)) {
            assert(cm[node_key_spec(l + 1, p as u64)] == smt_internal_spec(
                node_or_empty(cm, l, 2 * p),
                node_or_empty(cm, l, 2 * p + 1),
            ));
        } else {
            // An unmaterialized parent has unmaterialized children, so both
            // sides of the pair are the empty hash of their level.
            assert(!cm.contains_key(node_key_spec(l, (2 * p) as u64))) by {
                if cm.contains_key(node_key_spec(l, (2 * p) as u64)) {
                    assert((2 * p) / 2 == p) by (nonlinear_arith);
                    assert(0 <= 2 * p < pow2((depth - l) as nat));
                    assert(cm.contains_key(node_key_spec(l + 1, ((2 * p) / 2) as u64)));
                }
            }
            assert(!cm.contains_key(node_key_spec(l, (2 * p + 1) as u64))) by {
                if cm.contains_key(node_key_spec(l, (2 * p + 1) as u64)) {
                    assert((2 * p + 1) / 2 == p) by (nonlinear_arith);
                    assert(0 <= 2 * p + 1 < pow2((depth - l) as nat));
                    assert(cm.contains_key(node_key_spec(l + 1, ((2 * p + 1) / 2) as u64)));
                }
            }
            assert(combined == smt_internal_spec(
                smt_empty_spec(l as nat),
                smt_empty_spec(l as nat),
            ));
        }
        assert(combined == node_or_empty(cm, l + 1, p));
        assert(sibs.skip(l).drop_first() =~= sibs.skip(l + 1));
        lemma_consistent_fold(cm, idx, depth, l + 1);
    }
}

/// In a consistent store, the proof served for a key whose leaf slot was
/// never written verifies as a non-membership proof against the served root.
pub proof fn lemma_smt_non_membership(cm: Map<Seq<u8>, Seq<u8>>, key: Seq<u8>, depth: int)
    requires
        1 <= depth <= 64,
        smt_consistent(cm, depth),
        !cm.contains_key(
            node_key_spec(0, (key_index_spec(keccak_spec(key), depth)) as u64),
        ),
    ensures
        ({
            let idx = key_index_spec(keccak_spec(key), depth);
            smt_verify_spec(
                smt_empty_spec(0),
                idx,
                proof_sibs(cm, idx, depth).map_values(|h: Seq<u8>| hex_chars_of(h)),
                node_or_empty(cm, depth, 0),
                depth,
            )
        }),
{
    let idx = key_index_spec(keccak_spec(key), depth);
    lemma_key_index_range(keccak_spec(key), depth);
    assert(pow2(0) == 1) by {
        vstd::arithmetic::power2::lemma2_to64();
        vstd::arithmetic::power2::lemma2_to64_rest();
    }
    assert(idx / pow2(0) as int == idx);
    assert(node_or_empty(cm, 0, idx) == smt_empty_spec(0));
    assert(proof_sibs(cm, idx, depth).skip(0) =~= proof_sibs(cm, idx, depth));
    lemma_consistent_fold(cm, idx, depth, 0);
    lemma_hex_fold(
        smt_empty_spec(0),
        idx,
        proof_sibs(cm, idx, depth),
        node_or_empty(cm, depth, 0),
    );
}

} // verus!
