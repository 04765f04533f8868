//! The append-only incremental Merkle tree (IMT), kept in memory.
//!
//! Level 0 of the hash pyramid is the leaf list itself; level `l + 1` pairs
//! adjacent elements of level `l` with `keccak(left ++ right)`, duplicating a
//! trailing odd element. The last level holds exactly one element, the root.
//! Proofs carry one hex-encoded sibling per level climbed, and the verifier
//! derives left/right at each level from the low bit of the successively
//! halved leaf index.

use vstd::prelude::*;

use crate::hashing::{hash_pair, hash_pair_spec};
use crate::hexstr::{
    decode_hex, encode_hex, hex_chars_of, hex_decode_bytes, hex_valid, lemma_hex_round_trip,
};
use crate::TreeError;

verus! {

use vstd::utf8::encode_utf8;

/// The deepest hash pyramid any tree of this crate maintains.
pub const MAX_LEVELS: usize = 32;

/// The leaf ceiling of the default tree: one leaf per slot of a full pyramid.
pub const MAX_LEAVES: u64 = 4294967296;

/// The sequence of byte sequences a leaf list denotes.
pub open spec fn level_view(v: Seq<Vec<u8>>) -> Seq<Seq<u8>> {
    Seq::new(v.len(), |i: int| v[i]@)
}

/// The view of a whole cached pyramid.
pub open spec fn levels_view(v: Seq<Vec<Vec<u8>>>) -> Seq<Seq<Seq<u8>>> {
    Seq::new(v.len(), |i: int| level_view(v[i]@))
}

/// One promotion step: adjacent pairs are hashed left-to-right, and a
/// trailing odd element is paired with itself.
pub open spec fn next_level_spec(level: Seq<Seq<u8>>) -> Seq<Seq<u8>> {
    Seq::new(
        (level.len() + 1) / 2,
        |i: int|
            if 2 * i + 1 < level.len() {
                hash_pair_spec(level[2 * i], level[2 * i + 1])
            } else {
                hash_pair_spec(level[2 * i], level[2 * i])
            },
    )
}

/// The full pyramid grown from a leaf level: each level follows from the one
/// below by `next_level_spec`, and the last level has at most one element.
pub open spec fn levels_spec(leaves: Seq<Seq<u8>>) -> Seq<Seq<Seq<u8>>>
    decreases leaves.len(),
{
    if leaves.len() <= 1 {
        seq![leaves]
    } else {
        seq![leaves] + levels_spec(next_level_spec(leaves))
    }
}

/// The root digest a non-empty leaf list commits to. A single leaf is its own
/// root.
pub open spec fn root_spec(leaves: Seq<Seq<u8>>) -> Seq<u8>
    recommends
        leaves.len() >= 1,
    decreases leaves.len(),
{
    if leaves.len() <= 1 {
        leaves[0]
    } else {
        root_spec(next_level_spec(leaves))
    }
}

/// The raw sibling hashes of the inclusion proof for position `index`: at
/// each level with more than one element, the neighbour `index ^ 1` when it is
/// in range, and the node's own hash otherwise (the duplication rule).
pub open spec fn proof_siblings_spec(level: Seq<Seq<u8>>, index: int) -> Seq<Seq<u8>>
    recommends
        0 <= index < level.len(),
    decreases level.len(),
{
    if level.len() <= 1 {
        Seq::empty()
    } else {
        let sib = if index % 2 == 0 {
            if index + 1 < level.len() {
                level[index + 1]
            } else {
                level[index]
            }
        } else {
            level[index - 1]
        };
        seq![sib] + proof_siblings_spec(next_level_spec(level), index / 2)
    }
}

/// The verifier's fold, one hex sibling at a time: a malformed sibling
/// rejects, otherwise the running hash combines with the decoded sibling on
/// the side chosen by the low bit of the running index, and the final hash
/// must equal the claimed root.
pub open spec fn verify_fold_from(acc: Seq<u8>, rest: Seq<Seq<char>>, index: int, root: Seq<u8>) -> bool
    decreases rest.len(),
{
    if rest.len() == 0 {
        acc == root
    } else {
        let sb = encode_utf8(rest[0]);
        if !hex_valid(sb) {
            false
        } else {
            let sib = hex_decode_bytes(sb);
            let h = if index % 2 == 0 {
                hash_pair_spec(acc, sib)
            } else {
                hash_pair_spec(sib, acc)
            };
            verify_fold_from(h, rest.drop_first(), index / 2, root)
        }
    }
}

/// What `verify_proof` decides, for any claimed leaf, sibling strings, root
/// and index.
pub open spec fn verify_proof_spec(leaf: Seq<u8>, sibs: Seq<Seq<char>>, root: Seq<u8>, index: int) -> bool {
    verify_fold_from(leaf, sibs, index, root)
}

/// An inclusion proof: one hex-encoded 32-byte sibling per level climbed.
#[derive(Debug, Clone)]
pub struct MerkleProof {
    pub siblings: Vec<String>,
}

impl View for MerkleProof {
    type V = Seq<Seq<char>>;

    open spec fn view(&self) -> Seq<Seq<char>> {
        Seq::new(self.siblings@.len(), |i: int| self.siblings@[i]@)
    }
}

/// Every pyramid has at least one level, and at least two when the base has
/// more than one element.
pub proof fn lemma_levels_spec_len(leaves: Seq<Seq<u8>>)
    ensures
        levels_spec(leaves).len() >= 1,
        leaves.len() > 1 ==> levels_spec(leaves).len() >= 2,
    decreases leaves.len(),
{
    if leaves.len() > 1 {
        lemma_levels_spec_len(next_level_spec(leaves));
    }
}

/// The shape of the pyramid: the base is the leaf list, each level follows
/// from its predecessor, only the last level has a single element, and the
/// last level of a non-empty tree is exactly the root.
pub proof fn lemma_levels_spec_structure(leaves: Seq<Seq<u8>>)
    ensures
        levels_spec(leaves)[0] == leaves,
        forall|k: int|
            0 <= k < levels_spec(leaves).len() ==> ((#[trigger] levels_spec(leaves)[k].len() > 1)
                <==> k + 1 < levels_spec(leaves).len()),
        forall|k: int|
            0 <= k && k + 1 < levels_spec(leaves).len() ==> #[trigger] levels_spec(leaves)[k + 1]
                == next_level_spec(levels_spec(leaves)[k]),
        leaves.len() >= 1 ==> levels_spec(leaves).last().len() == 1,
        leaves.len() >= 1 ==> levels_spec(leaves).last()[0] == root_spec(leaves),
    decreases leaves.len(),
{
    lemma_levels_spec_len(leaves);
    if leaves.len() <= 1 {
    } else {
        let next = next_level_spec(leaves);
        lemma_levels_spec_structure(next);
        lemma_levels_spec_len(next);
        let ls = levels_spec(leaves);
        assert(ls == seq![leaves] + levels_spec(next));
        assert forall|k: int|
            0 <= k && k + 1 < ls.len() implies #[trigger] ls[k + 1] == next_level_spec(ls[k]) by {
            if k == 0 {
                assert(ls[0] == leaves);
                assert(levels_spec(next)[0] == next);
                assert(ls[1] == levels_spec(next)[0]);
            } else {
                assert(ls[k] == levels_spec(next)[k - 1]);
                assert(ls[k + 1] == levels_spec(next)[k]);
                assert(levels_spec(next)[(k - 1) + 1] == next_level_spec(
                    levels_spec(next)[k - 1],
                ));
            }
        }
        assert forall|k: int|
            0 <= k < ls.len() implies ((#[trigger] ls[k].len() > 1) <==> k + 1 < ls.len()) by {
            if k > 0 {
                assert(ls[k] == levels_spec(next)[k - 1]);
            }
        }
        assert(ls.last() == levels_spec(next).last());
    }
}

/// Inclusion proofs verify: for any non-empty leaf list and any in-range
/// index, folding the leaf with the proof's siblings reproduces the root.
pub proof fn lemma_proof_round_trip(level: Seq<Seq<u8>>, index: int)
    requires
        0 <= index < level.len(),
    ensures
        verify_proof_spec(
            level[index],
            proof_siblings_spec(level, index).map_values(|h: Seq<u8>| hex_chars_of(h)),
            root_spec(level),
            index,
        ),
    decreases level.len(),
{
    let sibs = proof_siblings_spec(level, index);
    let strs = sibs.map_values(|h: Seq<u8>| hex_chars_of(h));
    if level.len() <= 1 {
        assert(strs.len() == 0);
    } else {
        let next = next_level_spec(level);
        let sib = if index % 2 == 0 {
            if index + 1 < level.len() {
                level[index + 1]
            } else {
                level[index]
            }
        } else {
            level[index - 1]
        };
        lemma_hex_round_trip(sib);
        assert(strs[0] == hex_chars_of(sib));
        let h = if index % 2 == 0 {
            hash_pair_spec(level[index], sib)
        } else {
            hash_pair_spec(sib, level[index])
        };
        assert(2 * (index / 2) == index || 2 * (index / 2) + 1 == index);
        assert(h == next[index / 2]);
        lemma_proof_round_trip(next, index / 2);
        assert(strs.drop_first() =~= proof_siblings_spec(next, index / 2).map_values(
            |hh: Seq<u8>| hex_chars_of(hh),
        ));
    }
}

/// Determinism: the root is a function of the leaf bytes alone.
pub proof fn lemma_root_deterministic(a: Seq<Seq<u8>>, b: Seq<Seq<u8>>)
    requires
        a == b,
    ensures
        root_spec(a) == root_spec(b),
{
}

/// Odd-size duplication: a level of odd length greater than one produces the
/// same root as that level padded with a copy of its own last element.
pub proof fn lemma_odd_size_duplication(level: Seq<Seq<u8>>)
    requires
        level.len() > 1,
        level.len() % 2 == 1,
    ensures
        root_spec(level) == root_spec(level.push(level.last())),
{
    let padded = level.push(level.last());
    assert(next_level_spec(level) =~= next_level_spec(padded)) by {
        assert forall|i: int|
            0 <= i < (level.len() + 1) / 2 implies next_level_spec(level)[i] == next_level_spec(
            padded,
        )[i] by {
            if 2 * i + 1 < level.len() {
                assert(padded[2 * i] == level[2 * i] && padded[2 * i + 1] == level[2 * i + 1]);
            } else {
                assert(2 * i == level.len() - 1);
                assert(padded[2 * i] == level[2 * i] && padded[2 * i + 1] == level[level.len() - 1]);
            }
        }
    }
    assert(padded.len() > 1);
}

/// Byte-for-byte equality of two slices.
pub fn bytes_eq(a: &[u8], b: &[u8]) -> (r: bool)
    ensures
        r == (a@ == b@),
{
    if a.len() != b.len() {
        proof {
            assert(a@.len() != b@.len());
        }
        return false;
    }
    let n = a.len();
    let mut i: usize = 0;
    while i < n
        invariant
            n == a@.len() && n == b@.len(),
            i <= n,
            forall|j: int| 0 <= j < i ==> a@[j] == b@[j],
        decreases n - i,
    {
        if a[i] != b[i] {
            return false;
        }
        i = i + 1;
    }
    proof {
        assert(a@ =~= b@);
    }
    true
}

/// A copy of a byte vector.
pub fn copy_bytes(src: &Vec<u8>) -> (r: Vec<u8>)
    ensures
        r@ == src@,
{
    vstd::slice::slice_to_vec(src.as_slice())
}

/// A copy of one pyramid level.
pub fn copy_level(src: &Vec<Vec<u8>>) -> (r: Vec<Vec<u8>>)
    ensures
        level_view(r@) == level_view(src@),
        r@.len() == src@.len(),
{
    let mut out: Vec<Vec<u8>> = Vec::new();
    let mut i: usize = 0;
    while i < src.len()
        invariant
            i <= src@.len(),
            out@.len() == i,
            forall|j: int| 0 <= j < i ==> #[trigger] out@[j]@ == src@[j]@,
        decreases src@.len() - i,
    {
        out.push(copy_bytes(&src[i]));
        i = i + 1;
    }
    proof {
        assert(level_view(out@) =~= level_view(src@));
    }
    out
}

/// The level above `cur`, computed left-to-right with the duplication rule.
fn next_level_exec(cur: &Vec<Vec<u8>>) -> (r: Vec<Vec<u8>>)
    requires
        cur@.len() >= 1,
    ensures
        level_view(r@) == next_level_spec(level_view(cur@)),
        r@.len() == (cur@.len() + 1) / 2,
        forall|i: int| 0 <= i < r@.len() ==> (#[trigger] r@[i]@).len() == 32,
{
    let n = cur.len();
    let half = n / 2 + n % 2;
    proof {
        assert(half == (n as int + 1) / 2);
    }
    let mut out: Vec<Vec<u8>> = Vec::new();
    let mut j: usize = 0;
    while j < half
        invariant
            n == cur@.len(),
            half == (n + 1) / 2,
            j <= half,
            out@.len() == j,
            forall|k: int|
                0 <= k < j ==> #[trigger] out@[k]@ == next_level_spec(level_view(cur@))[k],
            forall|k: int| 0 <= k < j ==> (#[trigger] out@[k]@).len() == 32,
        decreases half - j,
    {
        let left = &cur[2 * j];
        let h = if 2 * j + 1 < n {
            hash_pair(left.as_slice(), cur[2 * j + 1].as_slice())
        } else {
            hash_pair(left.as_slice(), left.as_slice())
        };
        out.push(h);
        j = j + 1;
    }
    proof {
        assert(level_view(out@) =~= next_level_spec(level_view(cur@)));
    }
    out
}

/// The whole pyramid over a non-empty leaf list, or `InvariantViolated` when
/// more than `MAX_LEVELS` promotions would be needed.
pub(crate) fn compute_levels(leaves: &Vec<Vec<u8>>) -> (r: Result<Vec<Vec<Vec<u8>>>, TreeError>)
    requires
        leaves@.len() >= 1,
    ensures
        r matches Ok(ls) ==> levels_view(ls@) == levels_spec(level_view(leaves@))
            && levels_spec(level_view(leaves@)).len() <= MAX_LEVELS + 1,
        r matches Ok(ls) ==> forall|l: int, i: int|
            1 <= l < levels_spec(level_view(leaves@)).len() && 0 <= i < levels_spec(
                level_view(leaves@),
            )[l].len() ==> (#[trigger] levels_spec(level_view(leaves@))[l][i]).len() == 32,
        r matches Err(e) ==> e == TreeError::InvariantViolated && levels_spec(
            level_view(leaves@),
        ).len() > MAX_LEVELS + 1,
{
    let ghost ldv = level_view(leaves@);
    let mut levels: Vec<Vec<Vec<u8>>> = Vec::new();
    levels.push(copy_level(leaves));
    while levels[levels.len() - 1].len() > 1
        invariant
            ldv == level_view(leaves@),
            levels@.len() >= 1,
            levels@.len() <= MAX_LEVELS + 1,
            forall|k: int| 0 <= k < levels@.len() ==> #[trigger] levels@[k]@.len() >= 1,
            forall|k: int, i: int|
                1 <= k < levels@.len() && 0 <= i < levels@[k]@.len() ==> (
                #[trigger] levels@[k]@[i]@).len() == 32,
            levels_spec(ldv) == levels_view(levels@).take(levels@.len() - 1) + levels_spec(
                level_view(levels@[levels@.len() - 1]@),
            ),
        decreases levels@[levels@.len() - 1]@.len() + MAX_LEVELS + 1 - levels@.len(),
    {
        let ghost n = levels@.len() as int;
        let ghost cur = level_view(levels@[n - 1]@);
        proof {
            lemma_levels_spec_len(cur);
        }
        if levels.len() >= MAX_LEVELS + 1 {
            proof {
                assert(levels_spec(cur).len() >= 2);
                assert(levels_view(levels@).take(n - 1).len() == n - 1);
                assert(levels_spec(ldv).len() >= n - 1 + 2);
                assert(n >= MAX_LEVELS + 1);
                assert(levels_spec(ldv).len() > MAX_LEVELS + 1);
            }
            return Err(TreeError::InvariantViolated);
        }
        let next = next_level_exec(&levels[levels.len() - 1]);
        levels.push(next);
        proof {
            let m = levels@.len() as int;
            assert(level_view(levels@[m - 1]@) == next_level_spec(cur));
            assert(levels_spec(cur) == seq![cur] + levels_spec(next_level_spec(cur)));
            assert(levels_view(levels@).take(m - 1) =~= levels_view(levels@).take(m - 2).push(cur));
            assert(levels_spec(ldv) =~= levels_view(levels@).take(m - 1) + levels_spec(
                level_view(levels@[m - 1]@),
            ));
        }
    }
    proof {
        let n = levels@.len() as int;
        let last = level_view(levels@[n - 1]@);
        assert(levels_spec(last) == seq![last]);
        assert(levels_spec(ldv) =~= levels_view(levels@));
    }
    Ok(levels)
}

/// The append-only incremental Merkle tree, cached layer by layer.
pub struct IncrementalMerkleTree {
    leaves: Vec<Vec<u8>>,
    max_leaves: u64,
    /// The hash pyramid; level 0 mirrors the leaf list.
    pub cached_hashes: Vec<Vec<Vec<u8>>>,
    cached_root: Option<Vec<u8>>,
    cache_valid: bool,
}

impl IncrementalMerkleTree {
    /// The leaf list this tree commits to.
    pub closed spec fn leaves_view(&self) -> Seq<Seq<u8>> {
        level_view(self.leaves@)
    }

    /// The configured leaf ceiling.
    pub closed spec fn max_leaves_spec(&self) -> u64 {
        self.max_leaves
    }

    /// The cache is coherent: level 0 equals the leaves, every level follows
    /// from the one below, and the cached root is the pyramid's apex.
    pub closed spec fn well_formed(&self) -> bool {
        &&& self.cache_valid
        &&& if self.leaves_view().len() == 0 {
            self.cached_hashes@.len() == 0 && self.cached_root is None
        } else {
            &&& levels_view(self.cached_hashes@) == levels_spec(self.leaves_view())
            &&& self.cached_root matches Some(r) && r@ == root_spec(self.leaves_view())
        }
    }

    /// A fresh in-memory tree with the default leaf ceiling.
    pub fn new() -> (r: Self)
        ensures
            r.well_formed(),
            r.leaves_view() == Seq::<Seq<u8>>::empty(),
            r.max_leaves_spec() == MAX_LEAVES,
    {
        let r = Self {
            leaves: Vec::new(),
            max_leaves: MAX_LEAVES,
            cached_hashes: Vec::new(),
            cached_root: None,
            cache_valid: true,
        };
        proof {
            assert(r.leaves_view() =~= Seq::<Seq<u8>>::empty());
        }
        r
    }

    /// A fresh tree with a caller-chosen leaf ceiling.
    pub fn _new_with_max(max_leaves: u64) -> (r: Self)
        ensures
            r.well_formed(),
            r.leaves_view() == Seq::<Seq<u8>>::empty(),
            r.max_leaves_spec() == max_leaves,
    {
        let r = Self {
            leaves: Vec::new(),
            max_leaves,
            cached_hashes: Vec::new(),
            cached_root: None,
            cache_valid: true,
        };
        proof {
            assert(r.leaves_view() =~= Seq::<Seq<u8>>::empty());
        }
        r
    }

    /// Appends one leaf and recomputes the pyramid. Fails with
    /// `CapacityExceeded` at the leaf ceiling and `InvariantViolated` when the
    /// pyramid would outgrow `MAX_LEVELS`; on any failure the tree is
    /// unchanged.
    pub fn add_leaf(&mut self, leaf: Vec<u8>) -> (r: Result<(), TreeError>)
        requires
            old(self).well_formed(),
        ensures
            final(self).well_formed(),
            final(self).max_leaves_spec() == old(self).max_leaves_spec(),
            r matches Ok(_) ==> final(self).leaves_view() == old(self).leaves_view().push(leaf@),
            r is Err ==> *final(self) == *old(self),
            r matches Err(e) ==> (e == TreeError::CapacityExceeded || e
                == TreeError::InvariantViolated),
            (r matches Err(e) && e == TreeError::CapacityExceeded) <==> old(self).leaves_view().len()
                >= old(self).max_leaves_spec(),
            (r matches Err(e) && e == TreeError::InvariantViolated) <==> (old(self).leaves_view().len()
                < old(self).max_leaves_spec() && levels_spec(old(self).leaves_view().push(leaf@)).len()
                > MAX_LEVELS + 1),
    {
        if self.leaves.len() as u64 >= self.max_leaves {
            return Err(TreeError::CapacityExceeded);
        }
        let mut new_leaves = copy_level(&self.leaves);
        new_leaves.push(leaf);
        proof {
            assert(level_view(new_leaves@) =~= old(self).leaves_view().push(new_leaves@.last()@));
        }
        match compute_levels(&new_leaves) {
            Ok(levels) => {
                proof {
                    lemma_levels_spec_structure(level_view(new_leaves@));
                }
                let n = levels.len();
                let root = copy_bytes(&levels[n - 1][0]);
                self.leaves = new_leaves;
                self.cached_hashes = levels;
                self.cached_root = Some(root);
                self.cache_valid = true;
                Ok(())
            },
            Err(e) => Err(e),
        }
    }

    /// Appends a batch of leaves, all or none, under the same rules as
    /// `add_leaf`.
    pub fn add_leaves(&mut self, leaves: Vec<Vec<u8>>) -> (r: Result<(), TreeError>)
        requires
            old(self).well_formed(),
        ensures
            final(self).well_formed(),
            final(self).max_leaves_spec() == old(self).max_leaves_spec(),
            r matches Ok(_) ==> final(self).leaves_view() == old(self).leaves_view() + level_view(
                leaves@,
            ),
            r is Err ==> *final(self) == *old(self),
            r matches Err(e) ==> (e == TreeError::CapacityExceeded || e
                == TreeError::InvariantViolated),
            (r matches Err(e) && e == TreeError::CapacityExceeded) <==> old(self).leaves_view().len()
                + leaves@.len() > old(self).max_leaves_spec(),
            (r matches Err(e) && e == TreeError::InvariantViolated) <==> (old(self).leaves_view().len()
                + leaves@.len() <= old(self).max_leaves_spec() && old(self).leaves_view().len() + leaves@.len()
                > 0 && levels_spec(old(self).leaves_view() + level_view(leaves@)).len()
                > MAX_LEVELS + 1),
    {
        if self.leaves.len() as u64 > self.max_leaves || leaves.len() as u64 > self.max_leaves
            - self.leaves.len() as u64 {
            return Err(TreeError::CapacityExceeded);
        }
        if leaves.len() == 0 && self.leaves.len() == 0 {
            proof {
                assert(self.leaves_view() + level_view(leaves@) =~= self.leaves_view());
            }
            return Ok(());
        }
        let mut new_leaves = copy_level(&self.leaves);
        let mut incoming = leaves;
        new_leaves.append(&mut incoming);
        proof {
            assert(level_view(new_leaves@) =~= old(self).leaves_view() + level_view(leaves@));
        }
        match compute_levels(&new_leaves) {
            Ok(levels) => {
                proof {
                    lemma_levels_spec_structure(level_view(new_leaves@));
                }
                let n = levels.len();
                let root = copy_bytes(&levels[n - 1][0]);
                self.leaves = new_leaves;
                self.cached_hashes = levels;
                self.cached_root = Some(root);
                self.cache_valid = true;
                Ok(())
            },
            Err(e) => Err(e),
        }
    }

    /// The number of leaves appended so far.
    pub fn num_leaves(&self) -> (r: usize)
        ensures
            r == self.leaves_view().len(),
    {
        self.leaves.len()
    }

    /// The current root digest, or `None` for an empty tree.
    pub fn root(&mut self) -> (r: Option<Vec<u8>>)
        requires
            old(self).well_formed(),
        ensures
            *final(self) == *old(self),
            old(self).leaves_view().len() == 0 ==> r is None,
            old(self).leaves_view().len() > 0 ==> (r matches Some(h) && h@ == root_spec(
                old(self).leaves_view(),
            )),
    {
        if self.leaves.is_empty() {
            return None;
        }
        match &self.cached_root {
            Some(root) => Some(copy_bytes(root)),
            None => None,
        }
    }

    /// The inclusion proof for the leaf at `index`, or `None` when `index` is
    /// out of range.
    pub fn get_proof(&self, index: usize) -> (r: Option<MerkleProof>)
        requires
            self.well_formed(),
        ensures
            index >= self.leaves_view().len() ==> r is None,
            index < self.leaves_view().len() ==> (r matches Some(p) && p@ == proof_siblings_spec(
                self.leaves_view(),
                index as int,
            ).map_values(|h: Seq<u8>| hex_chars_of(h))),
    {
        if index >= self.leaves.len() {
            return None;
        }
        Some(proof_from_levels(&self.cached_hashes, index, Ghost(self.leaves_view())))
    }


    /// Pure verification: folds the claimed leaf with the hex siblings,
    /// deriving left/right from the low bit of the halving index, and accepts
    /// exactly when the fold reproduces `root`. Any malformed hex sibling
    /// rejects.
    pub fn verify_proof(&self, leaf: &[u8], proof: &MerkleProof, root: &[u8], leaf_index: usize) -> (r: bool)
        ensures
            r == verify_proof_spec(leaf@, proof@, root@, leaf_index as int),
    {
        verify_merkle_proof(leaf, proof, root, leaf_index)
    }
}


/// Builds the inclusion proof for `index` by walking a cached pyramid.
pub(crate) fn proof_from_levels(
    levels: &Vec<Vec<Vec<u8>>>,
    index: usize,
    Ghost(ldv): Ghost<Seq<Seq<u8>>>,
) -> (r: MerkleProof)
    requires
        levels_view(levels@) == levels_spec(ldv),
        ldv.len() >= 1,
        index < ldv.len(),
    ensures
        r@ == proof_siblings_spec(ldv, index as int).map_values(|h: Seq<u8>| hex_chars_of(h)),
{
    proof {
        lemma_levels_spec_structure(ldv);
        lemma_levels_spec_len(ldv);
    }
    let mut siblings: Vec<String> = Vec::new();
    let mut current_index: usize = index;
    let mut current_level: usize = 0;
    let num_levels = levels.len();
    while current_level + 1 < num_levels
        invariant
            levels_view(levels@) == levels_spec(ldv),
            ldv.len() >= 1,
            num_levels == levels@.len(),
            num_levels == levels_spec(ldv).len(),
            current_level < num_levels,
            current_index < levels_spec(ldv)[current_level as int].len(),
            proof_siblings_spec(ldv, index as int).map_values(|h: Seq<u8>| hex_chars_of(h))
                =~= Seq::new(siblings@.len(), |i: int| siblings@[i]@) + proof_siblings_spec(
                levels_spec(ldv)[current_level as int],
                current_index as int,
            ).map_values(|h: Seq<u8>| hex_chars_of(h)),
        decreases num_levels - current_level,
    {
        let ghost cur = levels_spec(ldv)[current_level as int];
        proof {
            lemma_levels_spec_structure(ldv);
            assert(cur.len() > 1);
        }
        let level_hashes = &levels[current_level];
        proof {
            assert(level_view(level_hashes@) == cur);
        }
        let level_size = level_hashes.len();
        let sibling_index = if current_index % 2 == 0 {
            current_index + 1
        } else {
            current_index - 1
        };
        let sib_hex = if sibling_index < level_size {
            encode_hex(level_hashes[sibling_index].as_slice())
        } else {
            encode_hex(level_hashes[current_index].as_slice())
        };
        siblings.push(sib_hex);
        proof {
            let sib = if current_index as int % 2 == 0 {
                if current_index as int + 1 < cur.len() {
                    cur[current_index as int + 1]
                } else {
                    cur[current_index as int]
                }
            } else {
                cur[current_index as int - 1]
            };
            assert(proof_siblings_spec(cur, current_index as int) == seq![sib]
                + proof_siblings_spec(next_level_spec(cur), current_index as int / 2));
            assert(siblings@.last()@ == hex_chars_of(sib));
            assert(levels_spec(ldv)[current_level as int + 1] == next_level_spec(cur));
            assert(next_level_spec(cur).len() == (cur.len() + 1) / 2);
        }
        current_index = current_index / 2;
        current_level = current_level + 1;
        proof {
            let lhs = proof_siblings_spec(ldv, index as int).map_values(
                |h: Seq<u8>| hex_chars_of(h),
            );
            let rhs = Seq::new(siblings@.len(), |i: int| siblings@[i]@) + proof_siblings_spec(
                levels_spec(ldv)[current_level as int],
                current_index as int,
            ).map_values(|h: Seq<u8>| hex_chars_of(h));
            assert(lhs =~= rhs);
        }
    }
    proof {
        let last = levels_spec(ldv)[current_level as int];
        assert(last.len() == 1) by {
            lemma_levels_spec_structure(ldv);
        }
        assert(proof_siblings_spec(last, current_index as int) =~= Seq::<Seq<u8>>::empty());
        assert(proof_siblings_spec(ldv, index as int).map_values(|h: Seq<u8>| hex_chars_of(h))
            =~= Seq::new(siblings@.len(), |i: int| siblings@[i]@));
    }
    MerkleProof { siblings }
}

/// Folds a claimed leaf with hex siblings against a root: the shared
/// verifier of both incremental-tree flavors.
pub(crate) fn verify_merkle_proof(leaf: &[u8], proof: &MerkleProof, root: &[u8], leaf_index: usize) -> (r: bool)
    ensures
        r == verify_proof_spec(leaf@, proof@, root@, leaf_index as int),
{
    let mut current_hash: Vec<u8> = vstd::slice::slice_to_vec(leaf);
    let mut current_index: usize = leaf_index;
    let n = proof.siblings.len();
    let mut j: usize = 0;
    proof {
        assert(proof@.skip(0) =~= proof@);
    }
    while j < n
        invariant
            n == proof.siblings@.len(),
            j <= n,
            verify_proof_spec(leaf@, proof@, root@, leaf_index as int) == verify_fold_from(
                current_hash@,
                proof@.skip(j as int),
                current_index as int,
                root@,
            ),
        decreases n - j,
    {
        let ghost rest = proof@.skip(j as int);
        proof {
            assert(rest[0] == proof@[j as int]);
            assert(rest.drop_first() =~= proof@.skip(j as int + 1));
        }
        let sibling = match decode_hex(proof.siblings[j].as_str()) {
            Some(bytes) => bytes,
            None => {
                return false;
            },
        };
        let next_hash = if current_index % 2 == 0 {
            hash_pair(current_hash.as_slice(), sibling.as_slice())
        } else {
            hash_pair(sibling.as_slice(), current_hash.as_slice())
        };
        current_hash = next_hash;
        current_index = current_index / 2;
        j = j + 1;
    }
    proof {
        assert(proof@.skip(n as int) =~= Seq::<Seq<char>>::empty());
    }
    bytes_eq(current_hash.as_slice(), root)
}

impl Default for IncrementalMerkleTree {
    /// Same as `new`.
    fn default() -> (r: Self)
        ensures
            r.well_formed(),
            r.leaves_view() == Seq::<Seq<u8>>::empty(),
    {
        Self::new()
    }
}

} // verus!
