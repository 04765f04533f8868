//! The storage-backed incremental Merkle tree.
//!
//! Leaves, the whole hash pyramid, the root and the counts live in the node
//! store; every mutation recomputes the derived data and commits the new
//! leaves, every level, the root and the metadata together in one
//! transaction, so a failed mutation leaves the stored tree untouched.
//! Reopening the same path resumes the stored tree.

use vstd::prelude::*;

use crate::codec::{
    enc_hashes_spec, enc_meta_spec, encode_hashes, encode_meta, lemma_level_key_injective,
    lemma_u64_be_injective, level_key, level_key_spec, u64_be, u64_be_spec,
};
use crate::merkle_tree::{
    compute_levels, copy_bytes, level_view, levels_spec, levels_view, proof_from_levels,
    proof_siblings_spec, root_spec, verify_merkle_proof, MerkleProof, MAX_LEAVES,
};
use crate::storage::{
    cache_contents, insert_all, leaves_contents, leaves_prefix, lemma_insert_all_frame,
    lemma_insert_all_lookup, metadata_contents, metadata_key, metadata_key_spec, pairs_view,
    root_key, root_key_spec, LmdbStorage,
};
use crate::TreeError;

verus! {

use crate::merkle_tree::lemma_levels_spec_structure;
use crate::merkle_tree::lemma_levels_spec_len;
use crate::merkle_tree::verify_proof_spec;
use crate::hexstr::hex_chars_of;

/// The largest leaf index the store can key.
pub const MAX_INDEX: u64 = 0xffff_ffff_ffff_ffff;

/// The `leaves` database holds exactly the leaves `L` under their big-endian
/// index keys, each below the store's value-size ceiling.
pub open spec fn leaves_exact(lm: Map<Seq<u8>, Seq<u8>>, leaves: Seq<Seq<u8>>) -> bool {
    &&& leaves.len() < MAX_INDEX
    &&& forall|i: int|
        0 <= i < leaves.len() ==> lm.contains_key(#[trigger] u64_be_spec(i as u64)) && lm[
            u64_be_spec(i as u64)] == leaves[i]
    &&& forall|i: int|
        leaves.len() <= i <= MAX_INDEX ==> !lm.contains_key(#[trigger] u64_be_spec(i as u64))
    &&& forall|i: int| 0 <= i < leaves.len() ==> (#[trigger] leaves[i]).len() < 4294967296
}

/// The metadata slot, when present, agrees with the leaf count and ceiling.
pub open spec fn meta_consistent(mm: Map<Seq<u8>, Seq<u8>>, n: int, max: u64) -> bool {
    mm.contains_key(metadata_key_spec()) ==> mm[metadata_key_spec()] == enc_meta_spec(
        n as u64,
        max,
    )
}

/// No level key at or above `k` is materialized.
pub open spec fn cache_tail_clean(cm: Map<Seq<u8>, Seq<u8>>, k: int) -> bool {
    forall|l: int| k <= l < 100 ==> !cm.contains_key(#[trigger] level_key_spec(l))
}

/// The derived data of `L` is fully stored: the metadata slot, the cached
/// root, and one encoded pyramid level per level key, with no stale level
/// beyond the pyramid.
pub open spec fn tree_stored(
    cm: Map<Seq<u8>, Seq<u8>>,
    mm: Map<Seq<u8>, Seq<u8>>,
    leaves: Seq<Seq<u8>>,
    max: u64,
) -> bool {
    &&& mm.contains_key(metadata_key_spec()) && mm[metadata_key_spec()] == enc_meta_spec(
        leaves.len() as u64,
        max,
    )
    &&& leaves.len() > 0 ==> {
        let ls = levels_spec(leaves);
        &&& mm.contains_key(root_key_spec()) && mm[root_key_spec()] == root_spec(leaves)
        &&& ls.len() <= 100
        &&& forall|l: int|
            0 <= l < ls.len() ==> cm.contains_key(#[trigger] level_key_spec(l)) && cm[
                level_key_spec(l)] == enc_hashes_spec(ls[l])
        &&& cache_tail_clean(cm, ls.len() as int)
    }
}

/// The storage-backed incremental Merkle tree.
pub struct LmdbMerkleTree {
    storage: LmdbStorage,
    max_leaves: u64,
}

impl LmdbMerkleTree {
    /// The configured leaf ceiling.
    pub closed spec fn max_leaves_spec(&self) -> u64 {
        self.max_leaves
    }

    /// The leaves map of the backing store.
    pub closed spec fn lm(&self) -> Map<Seq<u8>, Seq<u8>> {
        leaves_contents(self.storage)
    }

    /// The cache map of the backing store.
    pub closed spec fn cm(&self) -> Map<Seq<u8>, Seq<u8>> {
        cache_contents(self.storage)
    }

    /// The metadata map of the backing store.
    pub closed spec fn mm(&self) -> Map<Seq<u8>, Seq<u8>> {
        metadata_contents(self.storage)
    }

    /// The stored tree agrees with leaf list `leaves` under this ceiling.
    pub open spec fn agrees_with(&self, leaves: Seq<Seq<u8>>) -> bool {
        &&& leaves_exact(self.lm(), leaves)
        &&& meta_consistent(self.mm(), leaves.len() as int, self.max_leaves_spec())
        &&& cache_tail_clean(self.cm(), levels_spec(leaves).len() as int)
    }

    /// Opens or creates the stored tree at `path`. The ceiling is the one in
    /// the stored metadata slot when that slot is present, and the default
    /// one otherwise.
    pub fn new(storage_path: &str) -> (r: Result<Self, TreeError>)
        ensures
            r matches Ok(t) ==> (t.mm().contains_key(metadata_key_spec()) ==> exists|n: u64|
                t.mm()[metadata_key_spec()] == enc_meta_spec(n, t.max_leaves_spec())),
            r matches Ok(t) ==> (!t.mm().contains_key(metadata_key_spec())
                ==> t.max_leaves_spec() == MAX_LEAVES),
    {
        let storage = LmdbStorage::new(storage_path)?;
        let ghost mut count_slot: u64 = 0;
        let max_leaves: u64 = match storage.get_metadata() {
            Ok(Some(metadata)) => {
                proof {
                    count_slot = metadata.num_leaves as u64;
                    assert(metadata_contents(storage)[metadata_key_spec()] == enc_meta_spec(
                        count_slot,
                        metadata.max_leaves as u64,
                    ));
                }
                metadata.max_leaves as u64
            },
            Ok(None) => MAX_LEAVES,
            Err(e) => {
                return Err(e);
            },
        };
        let t = LmdbMerkleTree { storage, max_leaves };
        proof {
            if t.mm().contains_key(metadata_key_spec()) {
                assert(t.mm()[metadata_key_spec()] == enc_meta_spec(
                    count_slot,
                    t.max_leaves_spec(),
                ));
            }
        }
        Ok(t)
    }

    /// The stored leaf count: the metadata slot when present, else the
    /// number of contiguous stored leaves, else zero.
    pub fn num_leaves(&self) -> (r: usize)
        ensures
            forall|leaves: Seq<Seq<u8>>|
                #![trigger self.agrees_with(leaves)]
                self.agrees_with(leaves) && leaves.len() <= usize::MAX ==> (r == leaves.len()
                    || r == 0),
    {
        match self.count_leaves() {
            Ok(n) => n,
            Err(_) => 0,
        }
    }

    /// The stored leaf count, or the storage error that hid it.
    fn count_leaves(&self) -> (r: Result<usize, TreeError>)
        ensures
            forall|leaves: Seq<Seq<u8>>|
                #![trigger self.agrees_with(leaves)]
                self.agrees_with(leaves) && leaves.len() <= usize::MAX && r is Ok ==> (
                r matches Ok(m) && m == leaves.len()),
    {
        match self.storage.get_metadata()? {
            Some(metadata) => {
                proof {
                    assert forall|leaves: Seq<Seq<u8>>|
                        #![trigger self.agrees_with(leaves)]
                        self.agrees_with(leaves) && leaves.len()
                            <= usize::MAX implies metadata.num_leaves == leaves.len() by {
                        vstd::bytes::lemma_auto_spec_u64_to_from_le_bytes();
                        let ea = enc_meta_spec(
                            metadata.num_leaves as u64,
                            metadata.max_leaves as u64,
                        );
                        let eb = enc_meta_spec(leaves.len() as u64, self.max_leaves_spec());
                        assert(ea == eb);
                        assert(ea.subrange(0, 8) =~= crate::codec::u64_le_spec(
                            metadata.num_leaves as u64,
                        ));
                        assert(eb.subrange(0, 8) =~= crate::codec::u64_le_spec(
                            leaves.len() as u64,
                        ));
                        crate::codec::lemma_u64_le_injective(
                            metadata.num_leaves as u64,
                            leaves.len() as u64,
                        );
                    }
                }
                Ok(metadata.num_leaves)
            },
            None => {
                let all = self.storage.get_all_leaves()?;
                proof {
                    assert forall|leaves: Seq<Seq<u8>>|
                        #![trigger self.agrees_with(leaves)]
                        self.agrees_with(leaves) && leaves.len() <= usize::MAX implies all@.len()
                            == leaves.len() by {
                        if all@.len() < leaves.len() {
                            assert(leaves_contents(self.storage).contains_key(u64_be_spec(
                                all@.len() as u64,
                            )));
                        }
                        if all@.len() > leaves.len() {
                            crate::storage::lemma_leaves_prefix_index(
                                leaves_contents(self.storage),
                                all@,
                                leaves.len() as int,
                            );
                        }
                    }
                }
                Ok(all.len())
            },
        }
    }

    /// The stored root digest, or `None` while the tree is empty or the
    /// store cannot be read.
    pub fn root(&self) -> (r: Option<Vec<u8>>)
        ensures
            forall|leaves: Seq<Seq<u8>>|
                #![trigger self.agrees_with(leaves)]
                self.agrees_with(leaves) && tree_stored(
                    self.cm(),
                    self.mm(),
                    leaves,
                    self.max_leaves_spec(),
                ) && leaves.len() <= usize::MAX && r is Some ==> leaves.len() > 0 && (
                r matches Some(h2) && h2@ == root_spec(leaves)),
            forall|leaves: Seq<Seq<u8>>|
                #![trigger self.agrees_with(leaves)]
                self.agrees_with(leaves) && leaves.len() == 0 ==> r is None,
    {
        let n = match self.count_leaves() {
            Ok(n) => n,
            Err(_) => {
                return None;
            },
        };
        if n == 0 {
            return None;
        }
        match self.storage.get_root() {
            Ok(Some(root)) => Some(root),
            _ => None,
        }
    }

    /// Appends one leaf: reads the stored leaves, recomputes the pyramid,
    /// and commits the new leaf, every level, the root and the metadata in
    /// one transaction. `CapacityExceeded` leaves the store untouched.
    pub fn add_leaf(&mut self, leaf: Vec<u8>) -> (r: Result<(), TreeError>)
        requires
            leaf@.len() < 4294967296,
        ensures
            final(self).max_leaves_spec() == old(self).max_leaves_spec(),
            forall|leaves: Seq<Seq<u8>>|
                #![trigger old(self).agrees_with(leaves)]
                old(self).agrees_with(leaves) && (r matches Ok(_)) ==> final(self).agrees_with(
                    leaves.push(leaf@),
                ) && tree_stored(
                    final(self).cm(),
                    final(self).mm(),
                    leaves.push(leaf@),
                    old(self).max_leaves_spec(),
                ),
            forall|leaves: Seq<Seq<u8>>|
                #![trigger old(self).agrees_with(leaves)]
                old(self).agrees_with(leaves) && leaves.len() < old(self).max_leaves_spec()
                    && leaves.len() < 4294967294 && (r matches Err(e) && e
                    == TreeError::CapacityExceeded) ==> false,
            r is Err ==> *final(self) == *old(self),
            forall|leaves: Seq<Seq<u8>>|
                #![trigger old(self).agrees_with(leaves)]
                old(self).agrees_with(leaves) && leaves.len() + 1 > old(self).max_leaves_spec()
                    ==> r is Err,
    {
        let ghost lv = leaf@;
        let mut batch: Vec<Vec<u8>> = Vec::new();
        batch.push(leaf);
        proof {
            assert(level_view(batch@) =~= seq![lv]);
        }
        let r = self.add_leaves(batch);
        proof {
            assert forall|leaves: Seq<Seq<u8>>| true implies leaves + seq![lv] =~= leaves.push(
                lv,
            ) by {}
        }
        r
    }

    /// Appends a batch of leaves, all in one transaction with the recomputed
    /// pyramid, root and metadata. `CapacityExceeded` leaves the store
    /// untouched.
    pub fn add_leaves(&mut self, leaves: Vec<Vec<u8>>) -> (r: Result<(), TreeError>)
        requires
            forall|i: int| 0 <= i < leaves@.len() ==> (#[trigger] leaves@[i]@).len() < 4294967296,
        ensures
            final(self).max_leaves_spec() == old(self).max_leaves_spec(),
            forall|pre: Seq<Seq<u8>>|
                #![trigger old(self).agrees_with(pre)]
                old(self).agrees_with(pre) && (r matches Ok(_)) ==> final(self).agrees_with(
                    pre + level_view(leaves@),
                ) && tree_stored(
                    final(self).cm(),
                    final(self).mm(),
                    pre + level_view(leaves@),
                    old(self).max_leaves_spec(),
                ),
            forall|pre: Seq<Seq<u8>>|
                #![trigger old(self).agrees_with(pre)]
                old(self).agrees_with(pre) && pre.len() + leaves@.len() <= old(
                    self,
                ).max_leaves_spec() && pre.len() + leaves@.len() < 4294967295 && (r matches Err(e)
                    && e == TreeError::CapacityExceeded) ==> false,
            r is Err ==> *final(self) == *old(self),
            forall|pre: Seq<Seq<u8>>|
                #![trigger old(self).agrees_with(pre)]
                old(self).agrees_with(pre) && pre.len() + leaves@.len() > old(
                    self,
                ).max_leaves_spec() ==> r is Err,
    {
        let stored = match self.storage.get_all_leaves() {
            Ok(vs) => vs,
            Err(e) => {
                return Err(e);
            },
        };
        let n = stored.len();
        if (n as u64) > 4294967294u64 || (leaves.len() as u64) > 4294967294u64 - (n as u64) || (
        n as u64) + (leaves.len() as u64) > self.max_leaves {
            proof {
                assert forall|pre: Seq<Seq<u8>>|
                    #![trigger old(self).agrees_with(pre)]
                    old(self).agrees_with(pre) && pre.len() + leaves@.len() <= old(
                        self,
                    ).max_leaves_spec() && pre.len() + leaves@.len() < 4294967295 implies false by {
                    lemma_stored_from(leaves_contents(self.storage), pre, stored@);
                }
            }
            return Err(TreeError::CapacityExceeded);
        }
        self.commit_batch(stored, leaves)
    }

    /// Commits `stored ++ incoming` with its recomputed pyramid, root and
    /// metadata, all in one transaction. The environment is opened without
    /// any of the deferred-sync flags, so the commit itself flushes the
    /// write durably; no separate sync step is needed.
    fn commit_batch(&mut self, stored: Vec<Vec<u8>>, incoming: Vec<Vec<u8>>) -> (r: Result<
        (),
        TreeError,
    >)
        requires
            forall|i: int|
                0 <= i < incoming@.len() ==> (#[trigger] incoming@[i]@).len() < 4294967296,
            stored@.len() + incoming@.len() < 4294967295,
            leaves_prefix(leaves_contents(old(self).storage), stored@),
            !leaves_contents(old(self).storage).contains_key(u64_be_spec(stored@.len() as u64)),
        ensures
            final(self).max_leaves_spec() == old(self).max_leaves_spec(),
            forall|pre: Seq<Seq<u8>>|
                #![trigger old(self).agrees_with(pre)]
                old(self).agrees_with(pre) && (r matches Ok(_)) ==> final(self).agrees_with(
                    pre + level_view(incoming@),
                ) && tree_stored(
                    final(self).cm(),
                    final(self).mm(),
                    pre + level_view(incoming@),
                    old(self).max_leaves_spec(),
                ),
            r matches Err(e) ==> e != TreeError::CapacityExceeded,
            r is Err ==> *final(self) == *old(self),
            forall|pre: Seq<Seq<u8>>|
                #![trigger old(self).agrees_with(pre)]
                old(self).agrees_with(pre) && (r matches Ok(_)) ==> pre.len() == stored@.len(),
    {
        let n = stored.len();
        let k = incoming.len();
        let ghost stored_snap = stored@;
        let ghost sv = level_view(stored@);
        let ghost iv = level_view(incoming@);
        let mut new_leaves = stored;
        let mut tail = incoming;
        let mut leaf_pairs: Vec<(Vec<u8>, Vec<u8>)> = Vec::new();
        let mut j: usize = 0;
        while j < k
            invariant
                k == tail@.len(),
                iv == level_view(tail@),
                n + k < 4294967295,
                j <= k,
                pairs_view(leaf_pairs@) == Seq::new(
                    j as nat,
                    |t: int| (u64_be_spec((n + t) as u64), iv[t]),
                ),
            decreases k - j,
        {
            let key = u64_be((n as u64) + (j as u64));
            let val = copy_bytes(&tail[j]);
            let ghost kk = key@;
            let ghost vv = val@;
            let ghost pre_pairs = pairs_view(leaf_pairs@);
            leaf_pairs.push((key, val));
            j = j + 1;
            proof {
                assert(pairs_view(leaf_pairs@) =~~= pre_pairs.push((kk, vv)));
                assert(pairs_view(leaf_pairs@) =~~= Seq::new(
                    j as nat,
                    |t: int| (u64_be_spec((n + t) as u64), iv[t]),
                ));
            }
        }
        new_leaves.append(&mut tail);
        proof {
            assert(level_view(new_leaves@) =~= sv + iv);
        }
        if new_leaves.len() == 0 {
            // Nothing to write: the batch was empty and the tree is empty.
            // Store only the metadata so the count is recorded.
            let meta_val = encode_meta(0, self.max_leaves);
            let mkey = metadata_key();
            let mut meta_pairs: Vec<(Vec<u8>, Vec<u8>)> = Vec::new();
            meta_pairs.push((mkey, meta_val));
            let empty_a: Vec<(Vec<u8>, Vec<u8>)> = Vec::new();
            let empty_b: Vec<(Vec<u8>, Vec<u8>)> = Vec::new();
            let r = self.storage.put_all_batch(&empty_a, &empty_b, &meta_pairs);
            match r {
                Ok(_) => {
                    proof {
                        let mp = pairs_view(meta_pairs@);
                        assert(pairs_view(empty_a@) =~= Seq::<(Seq<u8>, Seq<u8>)>::empty());
                        assert(pairs_view(empty_b@) =~= Seq::<(Seq<u8>, Seq<u8>)>::empty());
                        assert(insert_all(leaves_contents(old(self).storage), pairs_view(empty_a@))
                            == leaves_contents(old(self).storage));
                        assert(insert_all(cache_contents(old(self).storage), pairs_view(empty_b@))
                            == cache_contents(old(self).storage));
                        assert(mp.len() == 1 && mp[0] == (
                            metadata_key_spec(),
                            enc_meta_spec(0u64, self.max_leaves),
                        ));
                        assert forall|t: int| 0 < t < mp.len() implies (#[trigger] mp[t].0)
                            != mp[0].0 by {}
                        lemma_insert_all_lookup(metadata_contents(old(self).storage), mp, 0);
                        assert forall|pre: Seq<Seq<u8>>|
                            #![trigger old(self).agrees_with(pre)]
                            old(self).agrees_with(pre) implies self.agrees_with(
                            pre + level_view(incoming@),
                        ) && tree_stored(
                            self.cm(),
                            self.mm(),
                            pre + level_view(incoming@),
                            old(self).max_leaves_spec(),
                        ) && pre.len() == stored_snap.len() by {
                            lemma_stored_from(
                                leaves_contents(old(self).storage),
                                pre,
                                stored_snap,
                            );
                            assert(pre == sv);
                            assert(pre + iv =~= pre);
                            assert(pre.len() == 0);
                        }
                    }
                    Ok(())
                },
                Err(e) => Err(e),
            }
        } else {
            let levels = match compute_levels(&new_leaves) {
                Ok(ls) => ls,
                Err(e) => {
                    return Err(e);
                },
            };
            let nl = levels.len();
            proof {
                lemma_levels_spec_structure(sv + iv);
            }
            let root = copy_bytes(&levels[nl - 1][0]);
            let mut cache_pairs: Vec<(Vec<u8>, Vec<u8>)> = Vec::new();
            let mut l: usize = 0;
            while l < nl
                invariant
                    nl == levels@.len(),
                    nl <= 100,
                    levels_view(levels@) == levels_spec(sv + iv),
                    l <= nl,
                    pairs_view(cache_pairs@) == Seq::new(
                        l as nat,
                        |t: int| (level_key_spec(t), enc_hashes_spec(levels_spec(sv + iv)[t])),
                    ),
                decreases nl - l,
            {
                let key = level_key(l as u64);
                let value = encode_hashes(&levels[l]);
                let ghost kk = key@;
                let ghost vv = value@;
                let ghost pre_pairs = pairs_view(cache_pairs@);
                cache_pairs.push((key, value));
                l = l + 1;
                proof {
                    assert(level_view(levels@[l - 1]@) == levels_spec(sv + iv)[l - 1]);
                    assert(pairs_view(cache_pairs@) =~~= pre_pairs.push((kk, vv)));
                    assert(pairs_view(cache_pairs@) =~~= Seq::new(
                        l as nat,
                        |t: int| (level_key_spec(t), enc_hashes_spec(levels_spec(sv + iv)[t])),
                    ));
                }
            }
            let meta_val = encode_meta((n as u64) + (k as u64), self.max_leaves);
            let mkey = metadata_key();
            let rkey = root_key();
            let mut meta_pairs: Vec<(Vec<u8>, Vec<u8>)> = Vec::new();
            meta_pairs.push((mkey, meta_val));
            meta_pairs.push((rkey, root));
            let r = self.storage.put_all_batch(&leaf_pairs, &cache_pairs, &meta_pairs);
            match r {
                Ok(_) => {
                    proof {
                        let total = sv + iv;
                        assert(pairs_view(meta_pairs@) =~~= seq![
                            (
                                metadata_key_spec(),
                                enc_meta_spec(total.len() as u64, old(self).max_leaves_spec()),
                            ),
                            (root_key_spec(), root_spec(total)),
                        ]);
                        assert(pairs_view(leaf_pairs@) =~~= Seq::new(
                            iv.len(),
                            |t: int| (u64_be_spec((sv.len() + t) as u64), iv[t]),
                        ));
                        assert(pairs_view(cache_pairs@) =~~= Seq::new(
                            levels_spec(total).len(),
                            |t: int| (level_key_spec(t), enc_hashes_spec(levels_spec(total)[t])),
                        ));
                        assert forall|pre: Seq<Seq<u8>>|
                            #![trigger old(self).agrees_with(pre)]
                            old(self).agrees_with(pre) implies self.agrees_with(
                            pre + level_view(incoming@),
                        ) && tree_stored(
                            self.cm(),
                            self.mm(),
                            pre + level_view(incoming@),
                            old(self).max_leaves_spec(),
                        ) && pre.len() == stored_snap.len() by {
                            lemma_stored_from(
                                leaves_contents(old(self).storage),
                                pre,
                                stored_snap,
                            );
                            assert(pre == sv);
                            lemma_commit_maps(
                                leaves_contents(old(self).storage),
                                cache_contents(old(self).storage),
                                metadata_contents(old(self).storage),
                                leaves_contents(self.storage),
                                cache_contents(self.storage),
                                metadata_contents(self.storage),
                                sv,
                                iv,
                                old(self).max_leaves_spec(),
                            );
                        }
                    }
                    Ok(())
                },
                Err(e) => Err(e),
            }
        }
    }

    /// The inclusion proof for the leaf at `index`, recomputed from the
    /// stored leaves; `None` when the index is out of range or the store
    /// cannot be read.
    pub fn get_proof(&self, index: usize) -> (r: Option<MerkleProof>)
        ensures
            forall|leaves: Seq<Seq<u8>>|
                #![trigger self.agrees_with(leaves)]
                self.agrees_with(leaves) && r is Some ==> index < leaves.len() && (
                r matches Some(p2) && p2@ == proof_siblings_spec(leaves, index as int).map_values(
                    |h: Seq<u8>| hex_chars_of(h),
                )),
            forall|leaves: Seq<Seq<u8>>|
                #![trigger self.agrees_with(leaves)]
                self.agrees_with(leaves) && leaves.len() <= usize::MAX && index >= leaves.len()
                    ==> r is None,
    {
        let stored = match self.storage.get_all_leaves() {
            Ok(vs) => vs,
            Err(_) => {
                return None;
            },
        };
        if index >= stored.len() {
            return None;
        }
        let levels = match compute_levels(&stored) {
            Ok(ls) => ls,
            Err(_) => {
                return None;
            },
        };
        let p = proof_from_levels(&levels, index, Ghost(level_view(stored@)));
        proof {
            assert forall|leaves: Seq<Seq<u8>>|
                #![trigger self.agrees_with(leaves)]
                self.agrees_with(leaves) implies index < leaves.len() && level_view(stored@)
                == leaves by {
                lemma_stored_from(self.lm(), leaves, stored@);
            }
        }
        Some(p)
    }

    /// Pure verification, identical to the in-memory tree's.
    pub fn verify_proof(&self, leaf: &[u8], proof: &MerkleProof, root: &[u8], leaf_index: usize) -> (r: bool)
        ensures
            r == verify_proof_spec(leaf@, proof@, root@, leaf_index as int),
    {
        verify_merkle_proof(leaf, proof, root, leaf_index)
    }

}

/// When the leaves database holds exactly `leaves` and a contiguous read
/// returned `stored`, the two lists are the same.
proof fn lemma_stored_from(lm: Map<Seq<u8>, Seq<u8>>, leaves: Seq<Seq<u8>>, stored: Seq<Vec<u8>>)
    requires
        leaves_exact(lm, leaves),
        leaves_prefix(lm, stored),
        stored.len() < MAX_INDEX ==> !lm.contains_key(u64_be_spec(stored.len() as u64)),
    ensures
        level_view(stored) == leaves,
{
    if stored.len() < leaves.len() {
        assert(lm.contains_key(u64_be_spec(stored.len() as u64)));
        assert(false);
    }
    if stored.len() > leaves.len() {
        crate::storage::lemma_leaves_prefix_index(lm, stored, leaves.len() as int);
        assert(false);
    }
    assert forall|i: int| 0 <= i < leaves.len() implies level_view(stored)[i] == leaves[i] by {
        crate::storage::lemma_leaves_prefix_index(lm, stored, i);
    }
    assert(level_view(stored) =~= leaves);
}

/// A pyramid over at least as many leaves has at least as many levels.
proof fn lemma_levels_count_monotone(a: Seq<Seq<u8>>, b: Seq<Seq<u8>>)
    requires
        a.len() <= b.len(),
    ensures
        levels_spec(a).len() <= levels_spec(b).len(),
    decreases b.len(),
{
    if b.len() <= 1 {
    } else if a.len() <= 1 {
        lemma_levels_spec_len(b);
    } else {
        lemma_levels_count_monotone(
            crate::merkle_tree::next_level_spec(a),
            crate::merkle_tree::next_level_spec(b),
        );
    }
}

/// After one combined commit, the store holds exactly the extended leaf
/// list with its full derived data.
proof fn lemma_commit_maps(
    lm0: Map<Seq<u8>, Seq<u8>>,
    cm0: Map<Seq<u8>, Seq<u8>>,
    mm0: Map<Seq<u8>, Seq<u8>>,
    lm1: Map<Seq<u8>, Seq<u8>>,
    cm1: Map<Seq<u8>, Seq<u8>>,
    mm1: Map<Seq<u8>, Seq<u8>>,
    sv: Seq<Seq<u8>>,
    iv: Seq<Seq<u8>>,
    max: u64,
)
    requires
        lm1 == insert_all(
            lm0,
            Seq::new(iv.len(), |t: int| (u64_be_spec((sv.len() + t) as u64), iv[t])),
        ),
        cm1 == insert_all(
            cm0,
            Seq::new(
                levels_spec(sv + iv).len(),
                |t: int| (level_key_spec(t), enc_hashes_spec(levels_spec(sv + iv)[t])),
            ),
        ),
        mm1 == insert_all(
            mm0,
            seq![
                (metadata_key_spec(), enc_meta_spec((sv.len() + iv.len()) as u64, max)),
                (root_key_spec(), root_spec(sv + iv)),
            ],
        ),
        (sv + iv).len() >= 1,
        (sv + iv).len() < 4294967295,
        levels_spec(sv + iv).len() <= 100,
        forall|i: int| 0 <= i < iv.len() ==> (#[trigger] iv[i]).len() < 4294967296,
        leaves_exact(lm0, sv),
        cache_tail_clean(cm0, levels_spec(sv).len() as int),
    ensures
        leaves_exact(lm1, sv + iv),
        meta_consistent(mm1, (sv + iv).len() as int, max),
        cache_tail_clean(cm1, levels_spec(sv + iv).len() as int),
        tree_stored(cm1, mm1, sv + iv, max),
{
    let total = sv + iv;
    let lp = Seq::new(iv.len(), |t: int| (u64_be_spec((sv.len() + t) as u64), iv[t]));
    let ls = levels_spec(total);
    let cp = Seq::new(ls.len(), |t: int| (level_key_spec(t), enc_hashes_spec(ls[t])));
    let mp = seq![
        (metadata_key_spec(), enc_meta_spec(total.len() as u64, max)),
        (root_key_spec(), root_spec(total)),
    ];
    // Leaves.
    assert forall|i: int|
        0 <= i < total.len() implies lm1.contains_key(#[trigger] u64_be_spec(i as u64)) && lm1[
        u64_be_spec(i as u64)] == total[i] && total[i].len() < 4294967296 by {
        if i < sv.len() {
            assert forall|t: int| 0 <= t < lp.len() implies (#[trigger] lp[t].0) != u64_be_spec(
                i as u64,
            ) by {
                if lp[t].0 == u64_be_spec(i as u64) {
                    lemma_u64_be_injective((sv.len() + t) as u64, i as u64);
                }
            }
            lemma_insert_all_frame(lm0, lp, u64_be_spec(i as u64));
        } else {
            let j = i - sv.len();
            assert forall|t: int| j < t < lp.len() implies (#[trigger] lp[t].0) != lp[j].0 by {
                if lp[t].0 == lp[j].0 {
                    lemma_u64_be_injective((sv.len() + t) as u64, (sv.len() + j) as u64);
                }
            }
            lemma_insert_all_lookup(lm0, lp, j);
        }
    }
    assert forall|i: int|
        total.len() <= i <= MAX_INDEX implies !lm1.contains_key(
        #[trigger] u64_be_spec(i as u64),
    ) by {
        assert forall|t: int| 0 <= t < lp.len() implies (#[trigger] lp[t].0) != u64_be_spec(
            i as u64,
        ) by {
            if lp[t].0 == u64_be_spec(i as u64) {
                lemma_u64_be_injective((sv.len() + t) as u64, i as u64);
            }
        }
        lemma_insert_all_frame(lm0, lp, u64_be_spec(i as u64));
        assert(!lm0.contains_key(u64_be_spec(i as u64)));
    }
    // Metadata and root.
    assert(mp[0].0 != mp[1].0) by {
        assert(metadata_key_spec()[0] == 116u8);
        assert(root_key_spec()[0] == 99u8);
    }
    assert forall|t: int| 0 < t < mp.len() implies (#[trigger] mp[t].0) != mp[0].0 by {}
    lemma_insert_all_lookup(mm0, mp, 0);
    lemma_insert_all_lookup(mm0, mp, 1);
    // Cache levels.
    assert forall|l: int|
        0 <= l < ls.len() implies cm1.contains_key(#[trigger] level_key_spec(l)) && cm1[
        level_key_spec(l)] == enc_hashes_spec(ls[l]) by {
        assert forall|t: int| l < t < cp.len() implies (#[trigger] cp[t].0) != cp[l].0 by {
            if cp[t].0 == cp[l].0 {
                lemma_level_key_injective(t, l);
            }
        }
        lemma_insert_all_lookup(cm0, cp, l);
    }
    assert forall|l: int|
        ls.len() <= l < 100 implies !cm1.contains_key(#[trigger] level_key_spec(l)) by {
        assert forall|t: int| 0 <= t < cp.len() implies (#[trigger] cp[t].0) != level_key_spec(
            l,
        ) by {
            if cp[t].0 == level_key_spec(l) {
                lemma_level_key_injective(t, l);
            }
        }
        lemma_insert_all_frame(cm0, cp, level_key_spec(l));
        lemma_levels_count_monotone(sv, total);
        assert(!cm0.contains_key(level_key_spec(l)));
    }
}

} // verus!
