//! The transactional node store backing the persistent trees.
//!
//! One LMDB environment holds three sub-databases: `leaves` (big-endian
//! `u64` index to leaf bytes), `cache` (textual level keys to serialized
//! hash lists, and textual node keys to single 32-byte hashes), and
//! `metadata` (small named slots). Every mutating operation is one write
//! transaction: it applies completely or not at all. Readers see a
//! consistent snapshot. The store's logical contents are modelled as three
//! maps from key bytes to value bytes.

use vstd::prelude::*;

use lmdb::Transaction;

use crate::codec::{
    decode_hashes, decode_meta, enc_hashes_spec, enc_meta_spec, encode_hashes, encode_meta,
    level_key, level_key_spec, node_key, node_key_spec, u64_be, u64_be_spec,
};
use crate::merkle_tree::{copy_bytes, level_view, levels_view};
use crate::TreeError;

verus! {

#[verifier::external_type_specification]
#[verifier::external_body]
pub struct ExEnvironment(lmdb::Environment);

#[verifier::external_type_specification]
#[verifier::external_body]
pub struct ExDatabase(lmdb::Database);

/// Counts and ceiling of a stored tree, as kept in the metadata slot.
#[derive(Debug, Clone, Copy, PartialEq, Eq, Structural)]
pub struct TreeMetadata {
    pub num_leaves: usize,
    pub max_leaves: usize,
}

/// The transactional key/value store.
pub struct LmdbStorage {
    env: lmdb::Environment,
    leaves_db: lmdb::Database,
    cache_db: lmdb::Database,
    metadata_db: lmdb::Database,
}

/// What the `leaves` database holds.
pub uninterp spec fn leaves_contents(s: LmdbStorage) -> Map<Seq<u8>, Seq<u8>>;

/// What the `cache` database holds.
pub uninterp spec fn cache_contents(s: LmdbStorage) -> Map<Seq<u8>, Seq<u8>>;

/// What the `metadata` database holds.
pub uninterp spec fn metadata_contents(s: LmdbStorage) -> Map<Seq<u8>, Seq<u8>>;

/// An empty byte-keyed map.
pub open spec fn empty_bytes_map() -> Map<Seq<u8>, Seq<u8>> {
    Map::empty()
}

/// The map after inserting each pair in order.
pub open spec fn insert_all(m: Map<Seq<u8>, Seq<u8>>, pairs: Seq<(Seq<u8>, Seq<u8>)>) -> Map<
    Seq<u8>,
    Seq<u8>,
>
    decreases pairs.len(),
{
    if pairs.len() == 0 {
        m
    } else {
        insert_all(m.insert(pairs[0].0, pairs[0].1), pairs.drop_first())
    }
}

/// Inserting a single pair is one map insertion.
proof fn lemma_insert_all_one(m: Map<Seq<u8>, Seq<u8>>, pairs: Seq<(Seq<u8>, Seq<u8>)>)
    requires
        pairs.len() == 1,
    ensures
        insert_all(m, pairs) == m.insert(pairs[0].0, pairs[0].1),
{
    reveal_with_fuel(insert_all, 3);
    assert(pairs.drop_first() =~= Seq::<(Seq<u8>, Seq<u8>)>::empty());
    assert(insert_all(m.insert(pairs[0].0, pairs[0].1), pairs.drop_first()) == m.insert(
        pairs[0].0,
        pairs[0].1,
    ));
}

/// The first `vs.len()` leaf slots of `m` are exactly `vs`, in order.
pub open spec fn leaves_prefix(m: Map<Seq<u8>, Seq<u8>>, vs: Seq<Vec<u8>>) -> bool
    decreases vs.len(),
{
    vs.len() == 0 || (leaves_prefix(m, vs.drop_last()) && m.contains_key(u64_be_spec(
        (vs.len() - 1) as u64,
    )) && vs.last()@ == m[u64_be_spec((vs.len() - 1) as u64)])
}

/// Each position of a leaf prefix is the stored leaf at its index.
pub proof fn lemma_leaves_prefix_index(m: Map<Seq<u8>, Seq<u8>>, vs: Seq<Vec<u8>>, k: int)
    requires
        leaves_prefix(m, vs),
        0 <= k < vs.len(),
    ensures
        m.contains_key(u64_be_spec(k as u64)),
        vs[k]@ == m[u64_be_spec(k as u64)],
    decreases vs.len(),
{
    if k < vs.len() - 1 {
        lemma_leaves_prefix_index(m, vs.drop_last(), k);
        assert(vs.drop_last()[k] == vs[k]);
    }
}

/// The first `ls.len()` pyramid levels of `m` are exactly the encodings of
/// `ls`, in order.
pub open spec fn levels_prefix(m: Map<Seq<u8>, Seq<u8>>, ls: Seq<Vec<Vec<u8>>>) -> bool
    decreases ls.len(),
{
    ls.len() == 0 || (levels_prefix(m, ls.drop_last()) && m.contains_key(level_key_spec(
        ls.len() - 1,
    )) && m[level_key_spec(ls.len() - 1)] == enc_hashes_spec(level_view(ls.last()@)))
}

/// Each position of a level prefix is the stored encoding of its level.
pub proof fn lemma_levels_prefix_index(m: Map<Seq<u8>, Seq<u8>>, ls: Seq<Vec<Vec<u8>>>, l: int)
    requires
        levels_prefix(m, ls),
        0 <= l < ls.len(),
    ensures
        m.contains_key(level_key_spec(l)),
        m[level_key_spec(l)] == enc_hashes_spec(level_view(ls[l]@)),
    decreases ls.len(),
{
    if l < ls.len() - 1 {
        lemma_levels_prefix_index(m, ls.drop_last(), l);
        assert(ls.drop_last()[l] == ls[l]);
    }
}

/// Extending a leaf prefix by the next stored leaf keeps it a prefix.
proof fn lemma_leaves_prefix_push(m: Map<Seq<u8>, Seq<u8>>, pre: Seq<Vec<u8>>, v: Vec<u8>)
    requires
        leaves_prefix(m, pre),
        m.contains_key(u64_be_spec(pre.len() as u64)),
        v@ == m[u64_be_spec(pre.len() as u64)],
    ensures
        leaves_prefix(m, pre.push(v)),
{
    assert(pre.push(v).drop_last() =~= pre);
    assert(pre.push(v).last() == v);
}

/// Extending a level prefix by the next stored level keeps it a prefix.
proof fn lemma_levels_prefix_push(m: Map<Seq<u8>, Seq<u8>>, pre: Seq<Vec<Vec<u8>>>, v: Vec<Vec<u8>>)
    requires
        levels_prefix(m, pre),
        m.contains_key(level_key_spec(pre.len() as int)),
        m[level_key_spec(pre.len() as int)] == enc_hashes_spec(level_view(v@)),
    ensures
        levels_prefix(m, pre.push(v)),
{
    assert(pre.push(v).drop_last() =~= pre);
    assert(pre.push(v).last() == v);
}

/// Looking up a key written by `insert_all` yields its last written value.
pub proof fn lemma_insert_all_lookup(m: Map<Seq<u8>, Seq<u8>>, pairs: Seq<(Seq<u8>, Seq<u8>)>, j: int)
    requires
        0 <= j < pairs.len(),
        forall|k: int| j < k < pairs.len() ==> (#[trigger] pairs[k].0) != pairs[j].0,
    ensures
        insert_all(m, pairs).contains_key(pairs[j].0),
        insert_all(m, pairs)[pairs[j].0] == pairs[j].1,
    decreases pairs.len(),
{
    if j == 0 {
        assert forall|k: int|
            0 <= k < pairs.drop_first().len() implies (#[trigger] pairs.drop_first()[k].0)
            != pairs[0].0 by {
            assert(pairs.drop_first()[k] == pairs[k + 1]);
        }
        lemma_insert_all_frame(m.insert(pairs[0].0, pairs[0].1), pairs.drop_first(), pairs[0].0);
    } else {
        lemma_insert_all_lookup(m.insert(pairs[0].0, pairs[0].1), pairs.drop_first(), j - 1);
        assert(pairs.drop_first()[j - 1] == pairs[j]);
        assert forall|k: int|
            j - 1 < k < pairs.drop_first().len() implies (#[trigger] pairs.drop_first()[k].0)
            != pairs.drop_first()[j - 1].0 by {
            assert(pairs.drop_first()[k] == pairs[k + 1]);
        }
    }
}

/// A key no pair writes keeps its old binding through `insert_all`.
pub proof fn lemma_insert_all_frame(m: Map<Seq<u8>, Seq<u8>>, pairs: Seq<(Seq<u8>, Seq<u8>)>, key: Seq<
    u8,
>)
    requires
        forall|k: int| 0 <= k < pairs.len() ==> (#[trigger] pairs[k].0) != key,
    ensures
        insert_all(m, pairs).contains_key(key) == m.contains_key(key),
        m.contains_key(key) ==> insert_all(m, pairs)[key] == m[key],
    decreases pairs.len(),
{
    if pairs.len() > 0 {
        assert(pairs[0].0 != key);
        assert forall|k: int|
            0 <= k < pairs.drop_first().len() implies (#[trigger] pairs.drop_first()[k].0)
            != key by {
            assert(pairs.drop_first()[k] == pairs[k + 1]);
        }
        lemma_insert_all_frame(m.insert(pairs[0].0, pairs[0].1), pairs.drop_first(), key);
    }
}

/// The key/value views of a vector of byte pairs.
pub open spec fn pairs_view(ps: Seq<(Vec<u8>, Vec<u8>)>) -> Seq<(Seq<u8>, Seq<u8>)> {
    Seq::new(ps.len(), |i: int| (ps[i].0@, ps[i].1@))
}

impl LmdbStorage {
    /// Relies on `lmdb::Environment::open` and `create_db`: opens or creates
    /// the single-file store with its three sub-databases and a 1 GiB map.
    /// Nothing is promised of the contents: an existing file keeps its data.
    #[verifier::external_body]
    pub fn new(path: &str) -> (r: Result<Self, TreeError>)
    {
        let env = lmdb::Environment::new().set_flags(lmdb::EnvironmentFlags::NO_SUB_DIR).set_max_dbs(
            4,
        ).set_map_size(1073741824).open(std::path::Path::new(path)).map_err(
            |_| TreeError::StorageError,
        )?;
        let leaves_db = env.create_db(Some("leaves"), lmdb::DatabaseFlags::empty()).map_err(
            |_| TreeError::StorageError,
        )?;
        let cache_db = env.create_db(Some("cache"), lmdb::DatabaseFlags::empty()).map_err(
            |_| TreeError::StorageError,
        )?;
        let metadata_db = env.create_db(Some("metadata"), lmdb::DatabaseFlags::empty()).map_err(
            |_| TreeError::StorageError,
        )?;
        Ok(LmdbStorage { env, leaves_db, cache_db, metadata_db })
    }

    /// Relies on `lmdb::RwTransaction::put` and `commit`: all pairs are
    /// written to the leaves database in one write transaction; an aborted
    /// transaction changes nothing.
    #[verifier::external_body]
    fn leaves_put_batch(&mut self, pairs: &Vec<(Vec<u8>, Vec<u8>)>) -> (r: Result<(), TreeError>)
        ensures
            r matches Ok(_) ==> leaves_contents(*final(self)) == insert_all(
                leaves_contents(*old(self)),
                pairs_view(pairs@),
            ) && cache_contents(*final(self)) == cache_contents(*old(self)) && metadata_contents(
                *final(self),
            ) == metadata_contents(*old(self)),
            r matches Err(e) ==> e == TreeError::StorageError && *final(self) == *old(
                self,
            ),
    {
        let mut txn = self.env.begin_rw_txn().map_err(|_| TreeError::StorageError)?;
        for (k, v) in pairs.iter() {
            txn.put(self.leaves_db, k, v, lmdb::WriteFlags::empty()).map_err(
                |_| TreeError::StorageError,
            )?;
        }
        txn.commit().map_err(|_| TreeError::StorageError)
    }

    /// Relies on `lmdb::RwTransaction::put` and `commit`: all pairs are
    /// written to the cache database in one write transaction; an aborted
    /// transaction changes nothing.
    #[verifier::external_body]
    fn cache_put_batch(&mut self, pairs: &Vec<(Vec<u8>, Vec<u8>)>) -> (r: Result<(), TreeError>)
        ensures
            r matches Ok(_) ==> cache_contents(*final(self)) == insert_all(
                cache_contents(*old(self)),
                pairs_view(pairs@),
            ) && leaves_contents(*final(self)) == leaves_contents(*old(self)) && metadata_contents(
                *final(self),
            ) == metadata_contents(*old(self)),
            r matches Err(e) ==> e == TreeError::StorageError && *final(self) == *old(
                self,
            ),
    {
        let mut txn = self.env.begin_rw_txn().map_err(|_| TreeError::StorageError)?;
        for (k, v) in pairs.iter() {
            txn.put(self.cache_db, k, v, lmdb::WriteFlags::empty()).map_err(
                |_| TreeError::StorageError,
            )?;
        }
        txn.commit().map_err(|_| TreeError::StorageError)
    }

    /// Relies on `lmdb::RwTransaction::put` and `commit`: one metadata slot
    /// is written in one write transaction.
    #[verifier::external_body]
    fn metadata_put(&mut self, key: &Vec<u8>, value: &Vec<u8>) -> (r: Result<(), TreeError>)
        ensures
            r matches Ok(_) ==> metadata_contents(*final(self)) == metadata_contents(
                *old(self),
            ).insert(key@, value@) && leaves_contents(*final(self)) == leaves_contents(*old(self))
                && cache_contents(*final(self)) == cache_contents(*old(self)),
            r matches Err(e) ==> e == TreeError::StorageError && *final(self) == *old(
                self,
            ),
    {
        let mut txn = self.env.begin_rw_txn().map_err(|_| TreeError::StorageError)?;
        txn.put(self.metadata_db, key, value, lmdb::WriteFlags::empty()).map_err(
            |_| TreeError::StorageError,
        )?;
        txn.commit().map_err(|_| TreeError::StorageError)
    }

    /// Relies on `lmdb::RwTransaction::put` and `commit`: the leaf pairs, the
    /// cache pairs and the metadata pairs are all written in one write
    /// transaction — all of them or none.
    #[verifier::external_body]
    pub(crate) fn put_all_batch(
        &mut self,
        leaf_pairs: &Vec<(Vec<u8>, Vec<u8>)>,
        cache_pairs: &Vec<(Vec<u8>, Vec<u8>)>,
        meta_pairs: &Vec<(Vec<u8>, Vec<u8>)>,
    ) -> (r: Result<(), TreeError>)
        ensures
            r matches Ok(_) ==> leaves_contents(*final(self)) == insert_all(
                leaves_contents(*old(self)),
                pairs_view(leaf_pairs@),
            ) && cache_contents(*final(self)) == insert_all(
                cache_contents(*old(self)),
                pairs_view(cache_pairs@),
            ) && metadata_contents(*final(self)) == insert_all(
                metadata_contents(*old(self)),
                pairs_view(meta_pairs@),
            ),
            r matches Err(e) ==> e == TreeError::StorageError && *final(self) == *old(
                self,
            ),
    {
        let mut txn = self.env.begin_rw_txn().map_err(|_| TreeError::StorageError)?;
        for (k, v) in leaf_pairs.iter() {
            txn.put(self.leaves_db, k, v, lmdb::WriteFlags::empty()).map_err(|_| TreeError::StorageError)?;
        }
        for (k, v) in cache_pairs.iter() {
            txn.put(self.cache_db, k, v, lmdb::WriteFlags::empty()).map_err(|_| TreeError::StorageError)?;
        }
        for (k, v) in meta_pairs.iter() {
            txn.put(self.metadata_db, k, v, lmdb::WriteFlags::empty()).map_err(|_| TreeError::StorageError)?;
        }
        txn.commit().map_err(|_| TreeError::StorageError)
    }

    /// Relies on `lmdb::RoTransaction::get`: a read-only snapshot lookup in
    /// the leaves database; `NotFound` becomes `None`.
    #[verifier::external_body]
    fn leaves_get(&self, key: &Vec<u8>) -> (r: Result<Option<Vec<u8>>, TreeError>)
        ensures
            r matches Ok(o) ==> (match o {
                Some(v) => leaves_contents(*self).contains_key(key@) && v@ == leaves_contents(
                    *self,
                )[key@],
                None => !leaves_contents(*self).contains_key(key@),
            }),
            r matches Err(e) ==> e == TreeError::StorageError,
    {
        let txn = self.env.begin_ro_txn().map_err(|_| TreeError::StorageError)?;
        match txn.get(self.leaves_db, key) {
            Ok(data) => Ok(Some(data.to_vec())),
            Err(lmdb::Error::NotFound) => Ok(None),
            Err(_) => Err(TreeError::StorageError),
        }
    }

    /// Relies on `lmdb::RoTransaction::get`: a read-only snapshot lookup in
    /// the cache database; `NotFound` becomes `None`.
    #[verifier::external_body]
    fn cache_get(&self, key: &Vec<u8>) -> (r: Result<Option<Vec<u8>>, TreeError>)
        ensures
            r matches Ok(o) ==> (match o {
                Some(v) => cache_contents(*self).contains_key(key@) && v@ == cache_contents(
                    *self,
                )[key@],
                None => !cache_contents(*self).contains_key(key@),
            }),
            r matches Err(e) ==> e == TreeError::StorageError,
    {
        let txn = self.env.begin_ro_txn().map_err(|_| TreeError::StorageError)?;
        match txn.get(self.cache_db, key) {
            Ok(data) => Ok(Some(data.to_vec())),
            Err(lmdb::Error::NotFound) => Ok(None),
            Err(_) => Err(TreeError::StorageError),
        }
    }

    /// Relies on `lmdb::RoTransaction::get`: a read-only snapshot lookup in
    /// the metadata database; `NotFound` becomes `None`.
    #[verifier::external_body]
    fn metadata_get(&self, key: &Vec<u8>) -> (r: Result<Option<Vec<u8>>, TreeError>)
        ensures
            r matches Ok(o) ==> (match o {
                Some(v) => metadata_contents(*self).contains_key(key@) && v@ == metadata_contents(
                    *self,
                )[key@],
                None => !metadata_contents(*self).contains_key(key@),
            }),
            r matches Err(e) ==> e == TreeError::StorageError,
    {
        let txn = self.env.begin_ro_txn().map_err(|_| TreeError::StorageError)?;
        match txn.get(self.metadata_db, key) {
            Ok(data) => Ok(Some(data.to_vec())),
            Err(lmdb::Error::NotFound) => Ok(None),
            Err(_) => Err(TreeError::StorageError),
        }
    }

    /// Relies on `lmdb::RwTransaction::clear_db` and `commit`: empties the
    /// cache database in one write transaction.
    #[verifier::external_body]
    fn cache_clear_raw(&mut self) -> (r: Result<(), TreeError>)
        ensures
            r matches Ok(_) ==> cache_contents(*final(self)) == empty_bytes_map()
                && leaves_contents(*final(self)) == leaves_contents(*old(self))
                && metadata_contents(*final(self)) == metadata_contents(*old(self)),
            r matches Err(e) ==> e == TreeError::StorageError && *final(self) == *old(
                self,
            ),
    {
        let mut txn = self.env.begin_rw_txn().map_err(|_| TreeError::StorageError)?;
        txn.clear_db(self.cache_db).map_err(|_| TreeError::StorageError)?;
        txn.commit().map_err(|_| TreeError::StorageError)
    }

    /// Relies on `lmdb::RwTransaction::clear_db` and `commit`: empties all
    /// three databases in one write transaction — all of them or none.
    #[verifier::external_body]
    fn clear_all_raw(&mut self) -> (r: Result<(), TreeError>)
        ensures
            r matches Ok(_) ==> leaves_contents(*final(self)) == empty_bytes_map()
                && cache_contents(*final(self)) == empty_bytes_map()
                && metadata_contents(*final(self)) == empty_bytes_map(),
            r matches Err(e) ==> e == TreeError::StorageError && *final(self) == *old(
                self,
            ),
    {
        let mut txn = self.env.begin_rw_txn().map_err(|_| TreeError::StorageError)?;
        txn.clear_db(self.leaves_db).map_err(|_| TreeError::StorageError)?;
        txn.clear_db(self.cache_db).map_err(|_| TreeError::StorageError)?;
        txn.clear_db(self.metadata_db).map_err(|_| TreeError::StorageError)?;
        txn.commit().map_err(|_| TreeError::StorageError)
    }

    /// Relies on `lmdb::Environment::sync`: forces the backing file to
    /// stable storage. The logical contents are unchanged.
    #[verifier::external_body]
    pub fn sync(&self) -> (r: Result<(), TreeError>)
        ensures
            r matches Err(e) ==> e == TreeError::StorageError,
    {
        self.env.sync(true).map_err(|_| TreeError::StorageError)
    }

    /// Stores one leaf under its big-endian index key, in one transaction.
    pub fn store_leaf(&mut self, index: u64, leaf: &[u8]) -> (r: Result<(), TreeError>)
        ensures
            r matches Ok(_) ==> leaves_contents(*final(self)) == leaves_contents(
                *old(self),
            ).insert(u64_be_spec(index), leaf@) && cache_contents(*final(self)) == cache_contents(
                *old(self),
            ) && metadata_contents(*final(self)) == metadata_contents(*old(self)),
            r is Err ==> *final(self) == *old(self),
            r matches Err(e) ==> e == TreeError::StorageError,
    {
        let key = u64_be(index);
        let mut pairs: Vec<(Vec<u8>, Vec<u8>)> = Vec::new();
        pairs.push((key, vstd::slice::slice_to_vec(leaf)));
        let ghost pv = pairs_view(pairs@);
        proof {
            lemma_insert_all_one(leaves_contents(*self), pv);
            assert(pv[0].0 == u64_be_spec(index) && pv[0].1 == leaf@);
        }
        self.leaves_put_batch(&pairs)
    }

    /// The leaf stored at `index`, if any.
    pub fn get_leaf(&self, index: u64) -> (r: Result<Option<Vec<u8>>, TreeError>)
        ensures
            r matches Ok(o) ==> (match o {
                Some(v) => leaves_contents(*self).contains_key(u64_be_spec(index)) && v@
                    == leaves_contents(*self)[u64_be_spec(index)],
                None => !leaves_contents(*self).contains_key(u64_be_spec(index)),
            }),
            r matches Err(e) ==> e == TreeError::StorageError,
    {
        let key = u64_be(index);
        self.leaves_get(&key)
    }

    /// Stores leaves under indices `start_index ..`, all in one transaction.
    pub fn append_leaves(&mut self, start_index: u64, leaves: &Vec<Vec<u8>>) -> (r: Result<
        (),
        TreeError,
    >)
        requires
            start_index + leaves@.len() <= 0xffff_ffff_ffff_ffff,
        ensures
            r matches Ok(_) ==> leaves_contents(*final(self)) == insert_all(
                leaves_contents(*old(self)),
                Seq::new(
                    leaves@.len() as nat,
                    |i: int| (u64_be_spec((start_index + i) as u64), leaves@[i]@),
                ),
            ) && cache_contents(*final(self)) == cache_contents(*old(self)) && metadata_contents(
                *final(self),
            ) == metadata_contents(*old(self)),
            r is Err ==> *final(self) == *old(self),
            r matches Err(e) ==> e == TreeError::StorageError,
    {
        let ghost target = Seq::new(
            leaves@.len() as nat,
            |i: int| (u64_be_spec((start_index + i) as u64), leaves@[i]@),
        );
        let n = leaves.len();
        let mut pairs: Vec<(Vec<u8>, Vec<u8>)> = Vec::new();
        let mut i: usize = 0;
        while i < n
            invariant
                target == Seq::new(
                    leaves@.len() as nat,
                    |k: int| (u64_be_spec((start_index + k) as u64), leaves@[k]@),
                ),
                n == leaves@.len(),
                start_index + n <= 0xffff_ffff_ffff_ffff,
                i <= n,
                pairs_view(pairs@) == target.take(i as int),
            decreases n - i,
        {
            let key = u64_be(start_index + (i as u64));
            let val = copy_bytes(&leaves[i]);
            let ghost kk = key@;
            let ghost vv = val@;
            let ghost pre = pairs_view(pairs@);
            pairs.push((key, val));
            i = i + 1;
            proof {
                assert(pairs_view(pairs@) =~~= pre.push((kk, vv)));
                assert(target.take(i as int) =~~= target.take(i - 1).push(target[i - 1]));
                assert(target[i - 1] == (u64_be_spec((start_index + i - 1) as u64), leaves@[i
                    - 1]@));
                assert(pairs_view(pairs@) =~~= target.take(i as int));
            }
        }
        proof {
            assert(target.take(n as int) =~= target);
        }
        self.leaves_put_batch(&pairs)
    }

    /// Stores leaves `0 .. leaves.len()`, all in one transaction.
    pub fn store_leaves_batch(&mut self, leaves: &Vec<Vec<u8>>) -> (r: Result<(), TreeError>)
        requires
            leaves@.len() <= 0xffff_ffff_ffff_ffff,
        ensures
            r matches Ok(_) ==> leaves_contents(*final(self)) == insert_all(
                leaves_contents(*old(self)),
                Seq::new(leaves@.len() as nat, |i: int| (u64_be_spec(i as u64), leaves@[i]@)),
            ) && cache_contents(*final(self)) == cache_contents(*old(self)) && metadata_contents(
                *final(self),
            ) == metadata_contents(*old(self)),
            r is Err ==> *final(self) == *old(self),
            r matches Err(e) ==> e == TreeError::StorageError,
    {
        let r = self.append_leaves(0, leaves);
        proof {
            assert(Seq::new(leaves@.len() as nat, |i: int| (u64_be_spec((0 + i) as u64), leaves@[i]@))
                =~= Seq::new(leaves@.len() as nat, |i: int| (u64_be_spec(i as u64), leaves@[i]@)));
        }
        r
    }

    /// All leaves `0 .. n` where `n` is the first unused index.
    pub fn get_all_leaves(&self) -> (r: Result<Vec<Vec<u8>>, TreeError>)
        ensures
            r matches Ok(vs) ==> leaves_prefix(leaves_contents(*self), vs@) && (vs@.len()
                < 0xffff_ffff_ffff_ffff ==> !leaves_contents(*self).contains_key(u64_be_spec(
                vs@.len() as u64,
            ))),
            r matches Err(e) ==> e == TreeError::StorageError,
    {
        let mut out: Vec<Vec<u8>> = Vec::new();
        let mut i: u64 = 0;
        loop
            invariant
                i == out@.len(),
                i <= 0xffff_ffff_ffff_ffff,
                leaves_prefix(leaves_contents(*self), out@),
            decreases 0xffff_ffff_ffff_ffffu64 - i,
        {
            if i == 0xffff_ffff_ffff_ffff {
                return Ok(out);
            }
            match self.get_leaf(i) {
                Ok(Some(leaf)) => {
                    proof {
                        assert(leaves_contents(*self).contains_key(u64_be_spec(i)));
                        assert(leaf@ == leaves_contents(*self)[u64_be_spec(i)]);
                    }
                    let ghost pre_out = out@;
                    proof {
                        lemma_leaves_prefix_push(leaves_contents(*self), pre_out, leaf);
                    }
                    out.push(leaf);
                    i = i + 1;
                    proof {
                        assert(out@ == pre_out.push(out@.last()));
                    }
                },
                Ok(None) => {
                    return Ok(out);
                },
                Err(e) => {
                    return Err(e);
                },
            }
        }
    }

    /// Stores one pyramid level under its `level_<n>` key.
    pub fn store_cache_level(&mut self, level: u64, hashes: &Vec<Vec<u8>>) -> (r: Result<
        (),
        TreeError,
    >)
        ensures
            r matches Ok(_) ==> cache_contents(*final(self)) == cache_contents(*old(self)).insert(
                level_key_spec(level as int),
                enc_hashes_spec(level_view(hashes@)),
            ) && leaves_contents(*final(self)) == leaves_contents(*old(self)) && metadata_contents(
                *final(self),
            ) == metadata_contents(*old(self)),
            r is Err ==> *final(self) == *old(self),
            r matches Err(e) ==> e == TreeError::StorageError,
    {
        let key = level_key(level);
        let value = encode_hashes(hashes);
        let mut pairs: Vec<(Vec<u8>, Vec<u8>)> = Vec::new();
        pairs.push((key, value));
        let ghost pv = pairs_view(pairs@);
        proof {
            lemma_insert_all_one(cache_contents(*self), pv);
            assert(pv[0].0 == level_key_spec(level as int) && pv[0].1 == enc_hashes_spec(
                level_view(hashes@),
            ));
        }
        self.cache_put_batch(&pairs)
    }

    /// The pyramid level stored under `level_<n>`, if any; a value that is
    /// not a hash-list encoding is a storage error.
    pub fn get_cache_level(&self, level: u64) -> (r: Result<Option<Vec<Vec<u8>>>, TreeError>)
        ensures
            r matches Ok(o) ==> (match o {
                Some(v) => cache_contents(*self).contains_key(level_key_spec(level as int))
                    && cache_contents(*self)[level_key_spec(level as int)] == enc_hashes_spec(
                    level_view(v@),
                ),
                None => !cache_contents(*self).contains_key(level_key_spec(level as int)),
            }),
            r matches Err(e) ==> e == TreeError::StorageError,
    {
        let key = level_key(level);
        match self.cache_get(&key)? {
            Some(data) => {
                match decode_hashes(data.as_slice()) {
                    Some(hashes) => Ok(Some(hashes)),
                    None => Err(TreeError::StorageError),
                }
            },
            None => Ok(None),
        }
    }

    /// Stores a whole pyramid, level by level, in one transaction.
    pub fn store_cache_batch(&mut self, cache_levels: &Vec<Vec<Vec<u8>>>) -> (r: Result<
        (),
        TreeError,
    >)
        requires
            cache_levels@.len() < 100,
        ensures
            r matches Ok(_) ==> cache_contents(*final(self)) == insert_all(
                cache_contents(*old(self)),
                Seq::new(
                    cache_levels@.len() as nat,
                    |l: int|
                        (
                            level_key_spec(l),
                            enc_hashes_spec(levels_view(cache_levels@)[l]),
                        ),
                ),
            ) && leaves_contents(*final(self)) == leaves_contents(*old(self)) && metadata_contents(
                *final(self),
            ) == metadata_contents(*old(self)),
            r is Err ==> *final(self) == *old(self),
            r matches Err(e) ==> e == TreeError::StorageError,
    {
        let ghost target = Seq::new(
            cache_levels@.len() as nat,
            |l: int| (level_key_spec(l), enc_hashes_spec(levels_view(cache_levels@)[l])),
        );
        let n = cache_levels.len();
        let mut pairs: Vec<(Vec<u8>, Vec<u8>)> = Vec::new();
        let mut l: usize = 0;
        while l < n
            invariant
                target == Seq::new(
                    cache_levels@.len() as nat,
                    |k: int| (level_key_spec(k), enc_hashes_spec(levels_view(cache_levels@)[k])),
                ),
                n == cache_levels@.len(),
                n < 100,
                l <= n,
                pairs_view(pairs@) == target.take(l as int),
            decreases n - l,
        {
            let key = level_key(l as u64);
            let value = encode_hashes(&cache_levels[l]);
            let ghost kk = key@;
            let ghost vv = value@;
            let ghost pre = pairs_view(pairs@);
            pairs.push((key, value));
            l = l + 1;
            proof {
                assert(level_view(cache_levels@[l - 1]@) == levels_view(cache_levels@)[l - 1]);
                assert(pairs_view(pairs@) =~~= pre.push((kk, vv)));
                assert(target.take(l as int) =~~= target.take(l - 1).push(target[l - 1]));
                assert(target[l - 1] == (
                    level_key_spec(l - 1),
                    enc_hashes_spec(levels_view(cache_levels@)[l - 1]),
                ));
                assert(pairs_view(pairs@) =~~= target.take(l as int));
            }
        }
        proof {
            assert(target.take(n as int) =~= target);
        }
        self.cache_put_batch(&pairs)
    }

    /// Every stored pyramid level, bottom-up, stopping at the first gap.
    pub fn get_all_cache_levels(&self) -> (r: Result<Vec<Vec<Vec<u8>>>, TreeError>)
        ensures
            r matches Ok(ls) ==> ls@.len() <= 100 && levels_prefix(cache_contents(*self), ls@) && (
            ls@.len() < 100 ==> !cache_contents(*self).contains_key(level_key_spec(
                ls@.len() as int,
            ))),
            r matches Err(e) ==> e == TreeError::StorageError,
    {
        let mut out: Vec<Vec<Vec<u8>>> = Vec::new();
        let mut l: u64 = 0;
        while l < 100
            invariant
                l == out@.len(),
                l <= 100,
                levels_prefix(cache_contents(*self), out@),
            decreases 100 - l,
        {
            match self.get_cache_level(l) {
                Ok(Some(hashes)) => {
                    proof {
                        assert(cache_contents(*self).contains_key(level_key_spec(l as int)));
                    }
                    let ghost pre_out = out@;
                    proof {
                        lemma_levels_prefix_push(cache_contents(*self), pre_out, hashes);
                    }
                    out.push(hashes);
                    l = l + 1;
                    proof {
                        assert(out@ == pre_out.push(out@.last()));
                    }
                },
                Ok(None) => {
                    return Ok(out);
                },
                Err(e) => {
                    return Err(e);
                },
            }
        }
        Ok(out)
    }

    /// Empties the cache database.
    pub fn clear_cache(&mut self) -> (r: Result<(), TreeError>)
        ensures
            r matches Ok(_) ==> cache_contents(*final(self)) == empty_bytes_map()
                && leaves_contents(*final(self)) == leaves_contents(*old(self))
                && metadata_contents(*final(self)) == metadata_contents(*old(self)),
            r is Err ==> *final(self) == *old(self),
            r matches Err(e) ==> e == TreeError::StorageError,
    {
        self.cache_clear_raw()
    }

    /// Stores the tree metadata slot.
    pub fn store_metadata(&mut self, metadata: &TreeMetadata) -> (r: Result<(), TreeError>)
        ensures
            r matches Ok(_) ==> metadata_contents(*final(self)) == metadata_contents(
                *old(self),
            ).insert(
                metadata_key_spec(),
                enc_meta_spec(metadata.num_leaves as u64, metadata.max_leaves as u64),
            ) && leaves_contents(*final(self)) == leaves_contents(*old(self)) && cache_contents(
                *final(self),
            ) == cache_contents(*old(self)),
            r is Err ==> *final(self) == *old(self),
            r matches Err(e) ==> e == TreeError::StorageError,
    {
        let key = metadata_key();
        let value = encode_meta(metadata.num_leaves as u64, metadata.max_leaves as u64);
        self.metadata_put(&key, &value)
    }

    /// The tree metadata slot, if present; a slot that is not a metadata
    /// encoding, or whose counts do not fit the platform, is a storage error.
    pub fn get_metadata(&self) -> (r: Result<Option<TreeMetadata>, TreeError>)
        ensures
            r matches Ok(o) ==> (match o {
                Some(m) => metadata_contents(*self).contains_key(metadata_key_spec())
                    && metadata_contents(*self)[metadata_key_spec()] == enc_meta_spec(
                    m.num_leaves as u64,
                    m.max_leaves as u64,
                ),
                None => !metadata_contents(*self).contains_key(metadata_key_spec()),
            }),
            r matches Err(e) ==> e == TreeError::StorageError,
    {
        let key = metadata_key();
        match self.metadata_get(&key)? {
            Some(data) => {
                match decode_meta(data.as_slice()) {
                    Some((n, m)) => {
                        if n > usize::MAX as u64 || m > usize::MAX as u64 {
                            Err(TreeError::StorageError)
                        } else {
                            Ok(
                                Some(
                                    TreeMetadata {
                                        num_leaves: n as usize,
                                        max_leaves: m as usize,
                                    },
                                ),
                            )
                        }
                    },
                    None => Err(TreeError::StorageError),
                }
            },
            None => Ok(None),
        }
    }

    /// Stores the cached root slot.
    pub fn store_root(&mut self, root: &[u8]) -> (r: Result<(), TreeError>)
        ensures
            r matches Ok(_) ==> metadata_contents(*final(self)) == metadata_contents(
                *old(self),
            ).insert(root_key_spec(), root@) && leaves_contents(*final(self)) == leaves_contents(
                *old(self),
            ) && cache_contents(*final(self)) == cache_contents(*old(self)),
            r is Err ==> *final(self) == *old(self),
            r matches Err(e) ==> e == TreeError::StorageError,
    {
        let key = root_key();
        let value = vstd::slice::slice_to_vec(root);
        self.metadata_put(&key, &value)
    }

    /// The cached root slot, if present.
    pub fn get_root(&self) -> (r: Result<Option<Vec<u8>>, TreeError>)
        ensures
            r matches Ok(o) ==> (match o {
                Some(v) => metadata_contents(*self).contains_key(root_key_spec()) && v@
                    == metadata_contents(*self)[root_key_spec()],
                None => !metadata_contents(*self).contains_key(root_key_spec()),
            }),
            r matches Err(e) ==> e == TreeError::StorageError,
    {
        let key = root_key();
        self.metadata_get(&key)
    }

    /// Empties all three databases in one transaction.
    pub fn clear_all(&mut self) -> (r: Result<(), TreeError>)
        ensures
            r matches Ok(_) ==> leaves_contents(*final(self)) == empty_bytes_map()
                && cache_contents(*final(self)) == empty_bytes_map()
                && metadata_contents(*final(self)) == empty_bytes_map(),
            r is Err ==> *final(self) == *old(self),
            r matches Err(e) ==> e == TreeError::StorageError,
    {
        self.clear_all_raw()
    }

    /// Stores one sparse-tree node hash under its `<ll>:<hex16>` key.
    pub fn store_node(&mut self, level: u64, index: u64, hash: &[u8]) -> (r: Result<(), TreeError>)
        requires
            level < 100,
        ensures
            r matches Ok(_) ==> cache_contents(*final(self)) == cache_contents(*old(self)).insert(
                node_key_spec(level as int, index),
                hash@,
            ) && leaves_contents(*final(self)) == leaves_contents(*old(self)) && metadata_contents(
                *final(self),
            ) == metadata_contents(*old(self)),
            r is Err ==> *final(self) == *old(self),
            r matches Err(e) ==> e == TreeError::StorageError,
    {
        let key = node_key(level, index);
        let mut pairs: Vec<(Vec<u8>, Vec<u8>)> = Vec::new();
        pairs.push((key, vstd::slice::slice_to_vec(hash)));
        let ghost pv = pairs_view(pairs@);
        proof {
            lemma_insert_all_one(cache_contents(*self), pv);
            assert(pv[0].0 == node_key_spec(level as int, index) && pv[0].1 == hash@);
        }
        self.cache_put_batch(&pairs)
    }

    /// The sparse-tree node hash at `(level, index)`, if materialized.
    pub fn get_node(&self, level: u64, index: u64) -> (r: Result<Option<Vec<u8>>, TreeError>)
        requires
            level < 100,
        ensures
            r matches Ok(o) ==> (match o {
                Some(v) => cache_contents(*self).contains_key(node_key_spec(level as int, index))
                    && v@ == cache_contents(*self)[node_key_spec(level as int, index)],
                None => !cache_contents(*self).contains_key(node_key_spec(level as int, index)),
            }),
            r matches Err(e) ==> e == TreeError::StorageError,
    {
        let key = node_key(level, index);
        self.cache_get(&key)
    }

    /// Stores a whole leaf-to-root path of node hashes in one transaction.
    pub fn store_path_batch(&mut self, updates: &Vec<(u64, u64, Vec<u8>)>) -> (r: Result<
        (),
        TreeError,
    >)
        requires
            forall|i: int| 0 <= i < updates@.len() ==> (#[trigger] updates@[i].0) < 100,
        ensures
            r matches Ok(_) ==> cache_contents(*final(self)) == insert_all(
                cache_contents(*old(self)),
                Seq::new(
                    updates@.len() as nat,
                    |i: int|
                        (node_key_spec(updates@[i].0 as int, updates@[i].1), updates@[i].2@),
                ),
            ) && leaves_contents(*final(self)) == leaves_contents(*old(self)) && metadata_contents(
                *final(self),
            ) == metadata_contents(*old(self)),
            r is Err ==> *final(self) == *old(self),
            r matches Err(e) ==> e == TreeError::StorageError,
    {
        let ghost target = Seq::new(
            updates@.len() as nat,
            |i: int| (node_key_spec(updates@[i].0 as int, updates@[i].1), updates@[i].2@),
        );
        let n = updates.len();
        let mut pairs: Vec<(Vec<u8>, Vec<u8>)> = Vec::new();
        let mut i: usize = 0;
        while i < n
            invariant
                target == Seq::new(
                    updates@.len() as nat,
                    |k: int| (node_key_spec(updates@[k].0 as int, updates@[k].1), updates@[k].2@),
                ),
                n == updates@.len(),
                i <= n,
                forall|k: int| 0 <= k < updates@.len() ==> (#[trigger] updates@[k].0) < 100,
                pairs_view(pairs@) == target.take(i as int),
            decreases n - i,
        {
            let key = node_key(updates[i].0, updates[i].1);
            let val = copy_bytes(&updates[i].2);
            let ghost kk = key@;
            let ghost vv = val@;
            let ghost pre = pairs_view(pairs@);
            pairs.push((key, val));
            i = i + 1;
            proof {
                assert(pairs_view(pairs@) =~~= pre.push((kk, vv)));
                assert(target.take(i as int) =~~= target.take(i - 1).push(target[i - 1]));
                assert(target[i - 1] == (
                    node_key_spec(updates@[i - 1].0 as int, updates@[i - 1].1),
                    updates@[i - 1].2@,
                ));
                assert(pairs_view(pairs@) =~~= target.take(i as int));
            }
        }
        proof {
            assert(target.take(n as int) =~= target);
        }
        self.cache_put_batch(&pairs)
    }
}

/// The ASCII bytes of the metadata slot's name.
pub open spec fn metadata_key_spec() -> Seq<u8> {
    seq![116u8, 114u8, 101u8, 101u8, 95u8, 109u8, 101u8, 116u8, 97u8, 100u8, 97u8, 116u8, 97u8]
}

/// The `tree_metadata` key bytes.
pub fn metadata_key() -> (r: Vec<u8>)
    ensures
        r@ == metadata_key_spec(),
{
    let mut out: Vec<u8> = Vec::new();
    out.push(116u8);
    out.push(114u8);
    out.push(101u8);
    out.push(101u8);
    out.push(95u8);
    out.push(109u8);
    out.push(101u8);
    out.push(116u8);
    out.push(97u8);
    out.push(100u8);
    out.push(97u8);
    out.push(116u8);
    out.push(97u8);
    proof {
        assert(out@ =~= metadata_key_spec());
    }
    out
}

/// The ASCII bytes of the cached root slot's name.
pub open spec fn root_key_spec() -> Seq<u8> {
    seq![99u8, 97u8, 99u8, 104u8, 101u8, 100u8, 95u8, 114u8, 111u8, 111u8, 116u8]
}

/// The `cached_root` key bytes.
pub fn root_key() -> (r: Vec<u8>)
    ensures
        r@ == root_key_spec(),
{
    let mut out: Vec<u8> = Vec::new();
    out.push(99u8);
    out.push(97u8);
    out.push(99u8);
    out.push(104u8);
    out.push(101u8);
    out.push(100u8);
    out.push(95u8);
    out.push(114u8);
    out.push(111u8);
    out.push(111u8);
    out.push(116u8);
    proof {
        assert(out@ =~= root_key_spec());
    }
    out
}

} // verus!
