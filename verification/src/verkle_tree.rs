//! A byte-trie commitment tree with wide nodes.
//!
//! Each node owns up to 256 value slots and up to 256 child slots, both keyed
//! by one byte. A value in slot `k` contributes `k ++ keccak("leaf:" ++ k ++
//! value)` to its node's data; a child in slot `k` contributes `k ++ child
//! commitment`; the node's commitment is `keccak("node:" ++ data)` with value
//! slots first and slots in ascending byte order. Every node stores its
//! commitment, kept valid on every mutation.

use vstd::prelude::*;

use crate::hashing::{keccak256, keccak_spec};
use crate::hexstr::{decode_hex, encode_hex, hex_decode_bytes, hex_valid};
use crate::merkle_tree::copy_bytes;
use crate::TreeError;

verus! {

use vstd::utf8::encode_utf8;

/// The deepest descent any key may force.
pub const MAX_LEVELS: usize = 32;

/// The default key ceiling.
pub const MAX_KEYS: u64 = 4294967296;

/// The ASCII bytes of the leaf domain tag.
pub open spec fn leaf_tag_spec() -> Seq<u8> {
    seq![108u8, 101u8, 97u8, 102u8, 58u8]
}

/// The ASCII bytes of the node domain tag.
pub open spec fn node_tag_spec() -> Seq<u8> {
    seq![110u8, 111u8, 100u8, 101u8, 58u8]
}

/// `keccak("leaf:" ++ slot ++ value)`, the hash a value slot contributes.
pub open spec fn leaf_hash_spec(slot: u8, value: Seq<u8>) -> Seq<u8> {
    keccak_spec(leaf_tag_spec() + seq![slot] + value)
}

/// A proof for one key: the path bytes, all sibling hashes met level by
/// level, the slot of each sibling, and how many siblings each level
/// contributed (leaf level last).
#[derive(Debug, Clone)]
pub struct VerkleProof {
    pub path: Vec<u8>,
    pub siblings: Vec<String>,
    pub indices: Vec<usize>,
    pub siblings_per_level: Vec<usize>,
}

/// One node of the commitment tree.
pub struct VerkleNode {
    pub values: Vec<(u8, Vec<u8>)>,
    pub children: Vec<(u8, VerkleNode)>,
    pub commitment: Vec<u8>,
}

/// Slots are strictly ordered by byte.
pub open spec fn vslots_sorted<T>(s: Seq<(u8, T)>) -> bool {
    forall|i: int, j: int| 0 <= i < j < s.len() ==> (#[trigger] s[i].0) < (#[trigger] s[j].0)
}

/// The commitment of a node: `keccak("node:" ++ data)` where `data` lists
/// every value slot as `k ++ leaf_hash(k, v)` and then every child slot as
/// `k ++ commitment(child)`, each group in ascending byte order.
pub open spec fn node_commit_spec(n: VerkleNode) -> Seq<u8>
    decreases n, 1int, 0int,
{
    keccak_spec(node_tag_spec() + values_blob(n.values@, 0) + children_blob(n.children@, 0))
}

/// The data contributed by value slots `vs[i ..]`.
pub open spec fn values_blob(vs: Seq<(u8, Vec<u8>)>, i: int) -> Seq<u8>
    decreases vs.len() - i,
{
    if i < 0 || i >= vs.len() {
        Seq::empty()
    } else {
        seq![vs[i].0] + leaf_hash_spec(vs[i].0, vs[i].1@) + values_blob(vs, i + 1)
    }
}

/// The data contributed by child slots `cs[i ..]`.
pub open spec fn children_blob(cs: Seq<(u8, VerkleNode)>, i: int) -> Seq<u8>
    decreases cs, 0int, cs.len() - i,
{
    if i < 0 || i >= cs.len() {
        Seq::empty()
    } else {
        seq![cs[i].0] + node_commit_spec(cs[i].1) + children_blob(cs, i + 1)
    }
}

/// Well-formedness: both slot lists sorted, the stored commitment equal to
/// the spec commitment, recursively.
pub open spec fn vnode_wf(n: VerkleNode) -> bool
    decreases n,
{
    &&& vslots_sorted(n.values@)
    &&& vslots_sorted(n.children@)
    &&& n.commitment@ == node_commit_spec(n)
    &&& forall|i: int| 0 <= i < n.children@.len() ==> vnode_wf(#[trigger] n.children@[i].1)
}

/// Whether some value slot uses byte `b`.
pub open spec fn has_slot<T>(s: Seq<(u8, T)>, b: u8) -> bool {
    exists|i: int| 0 <= i < s.len() && (#[trigger] s[i].0) == b
}

/// The child branching on byte `b`, if any.
pub open spec fn vfind_child(cs: Seq<(u8, VerkleNode)>, b: u8) -> Option<VerkleNode>
    decreases cs.len(),
{
    if cs.len() == 0 {
        None
    } else if cs[0].0 == b {
        Some(cs[0].1)
    } else {
        vfind_child(cs.drop_first(), b)
    }
}

/// Whether `key` is bound in the tree rooted at `n`, descending from byte
/// position `depth`. The empty key lives in value slot 0 of the root; the
/// last key byte names the value slot of its node.
pub open spec fn vcontains_spec(n: VerkleNode, key: Seq<u8>, depth: int) -> bool
    recommends
        0 <= depth,
    decreases key.len() - depth,
{
    if key.len() == 0 {
        has_slot(n.values@, 0)
    } else if depth == key.len() - 1 {
        has_slot(n.values@, key[depth])
    } else if 0 <= depth < key.len() {
        match vfind_child(n.children@, key[depth]) {
            Some(c) => vcontains_spec(c, key, depth + 1),
            None => false,
        }
    } else {
        false
    }
}

/// Whether a proof can be built for `key` from `n`: the key must be
/// non-empty, its last byte bound as a value slot at the end of the descent.
pub open spec fn proofable_spec(n: VerkleNode, key: Seq<u8>, depth: int) -> bool
    recommends
        0 <= depth,
    decreases key.len() - depth,
{
    if depth >= key.len() {
        false
    } else if depth == key.len() - 1 {
        has_slot(n.values@, key[depth])
    } else {
        match vfind_child(n.children@, key[depth]) {
            Some(c) => proofable_spec(c, key, depth + 1),
            None => false,
        }
    }
}

/// When the first `i` children do not branch on `b`, the search outcome is
/// decided by the rest.
proof fn lemma_vfind_child_skip(cs: Seq<(u8, VerkleNode)>, b: u8, i: int)
    requires
        0 <= i <= cs.len(),
        forall|j: int| 0 <= j < i ==> (#[trigger] cs[j].0) != b,
    ensures
        vfind_child(cs, b) == vfind_child(cs.skip(i), b),
    decreases i,
{
    if i > 0 {
        lemma_vfind_child_skip(cs, b, i - 1);
        assert(cs.skip(i - 1).len() > 0);
        assert(cs.skip(i - 1)[0] == cs[i - 1]);
        assert(cs[i - 1].0 != b);
        assert(vfind_child(cs.skip(i - 1), b) == vfind_child(cs.skip(i - 1).drop_first(), b));
        assert(cs.skip(i - 1).drop_first() =~= cs.skip(i));
    } else {
        assert(cs.skip(0) =~= cs);
    }
}

/// The first child branching on `b` is the one the search returns.
proof fn lemma_vfind_child_at(cs: Seq<(u8, VerkleNode)>, b: u8, j: int)
    requires
        0 <= j < cs.len(),
        cs[j].0 == b,
        forall|k: int| 0 <= k < j ==> (#[trigger] cs[k].0) != b,
    ensures
        vfind_child(cs, b) == Some(cs[j].1),
{
    lemma_vfind_child_skip(cs, b, j);
    assert(cs.skip(j).len() > 0);
    assert(cs.skip(j)[0] == cs[j]);
}

/// In a well-formed node every child's stored commitment is its spec
/// commitment.
proof fn lemma_vchildren_commitments_valid(cs: Seq<(u8, VerkleNode)>)
    requires
        forall|i: int| 0 <= i < cs.len() ==> vnode_wf(#[trigger] cs[i].1),
    ensures
        forall|i: int|
            0 <= i < cs.len() ==> (#[trigger] cs[i].1).commitment@ == node_commit_spec(cs[i].1),
{
    assert forall|i: int|
        0 <= i < cs.len() implies (#[trigger] cs[i].1).commitment@ == node_commit_spec(
        cs[i].1,
    ) by {
        assert(vnode_wf(cs[i].1));
    }
}

/// Value blobs are a congruence over slot views.
proof fn lemma_values_blob_congruence(a: Seq<(u8, Vec<u8>)>, b: Seq<(u8, Vec<u8>)>, i: int)
    requires
        a.len() == b.len(),
        forall|k: int|
            #![trigger a[k], b[k]]
            0 <= k < a.len() ==> a[k].0 == b[k].0 && a[k].1@ == b[k].1@,
    ensures
        values_blob(a, i) == values_blob(b, i),
    decreases a.len() - i,
{
    if 0 <= i < a.len() {
        lemma_values_blob_congruence(a, b, i + 1);
    }
}

/// Child blobs are a congruence over commitments.
proof fn lemma_children_blob_congruence(a: Seq<(u8, VerkleNode)>, b: Seq<(u8, VerkleNode)>, i: int)
    requires
        a.len() == b.len(),
        forall|k: int|
            #![trigger a[k], b[k]]
            0 <= k < a.len() ==> a[k].0 == b[k].0 && node_commit_spec(a[k].1)
                == node_commit_spec(b[k].1),
    ensures
        children_blob(a, i) == children_blob(b, i),
    decreases a.len() - i,
{
    if 0 <= i < a.len() {
        lemma_children_blob_congruence(a, b, i + 1);
    }
}

/// `keccak("leaf:" ++ slot ++ value)`.
fn leaf_hash(slot: u8, value: &[u8]) -> (r: Vec<u8>)
    ensures
        r@ == leaf_hash_spec(slot, value@),
        r@.len() == 32,
{
    let mut buf: Vec<u8> = Vec::new();
    buf.push(108u8);
    buf.push(101u8);
    buf.push(97u8);
    buf.push(102u8);
    buf.push(58u8);
    buf.push(slot);
    buf.extend_from_slice(value);
    proof {
        assert(buf@ =~= leaf_tag_spec() + seq![slot] + value@);
    }
    keccak256(buf.as_slice())
}

impl VerkleNode {
    /// A fresh node with no values and no children.
    pub fn new() -> (r: Self)
        ensures
            vnode_wf(r),
            r.values@ == Seq::<(u8, Vec<u8>)>::empty(),
            r.children@ == Seq::<(u8, VerkleNode)>::empty(),
    {
        let mut buf: Vec<u8> = Vec::new();
        buf.push(110u8);
        buf.push(111u8);
        buf.push(100u8);
        buf.push(101u8);
        buf.push(58u8);
        proof {
            assert(buf@ =~= node_tag_spec());
        }
        let commitment = keccak256(buf.as_slice());
        let r = VerkleNode { values: Vec::new(), children: Vec::new(), commitment };
        proof {
            assert(node_tag_spec() + values_blob(r.values@, 0) + children_blob(r.children@, 0)
                =~= node_tag_spec());
        }
        r
    }

    /// Recomputes this node's stored commitment from its fields.
    fn refresh_commitment(&mut self)
        requires
            forall|i: int|
                0 <= i < old(self).children@.len() ==> (#[trigger] old(
                    self,
                ).children@[i].1).commitment@ == node_commit_spec(old(self).children@[i].1),
        ensures
            final(self).values == old(self).values,
            final(self).children == old(self).children,
            final(self).commitment@ == node_commit_spec(*final(self)),
    {
        let mut buf: Vec<u8> = Vec::new();
        buf.push(110u8);
        buf.push(111u8);
        buf.push(100u8);
        buf.push(101u8);
        buf.push(58u8);
        proof {
            assert(buf@ =~= node_tag_spec());
        }
        let nv = self.values.len();
        let mut i: usize = 0;
        while i < nv
            invariant
                nv == self.values@.len(),
                i <= nv,
                self.values == old(self).values,
                self.children == old(self).children,
                buf@ + values_blob(self.values@, i as int) == node_tag_spec() + values_blob(
                    self.values@,
                    0,
                ),
            decreases nv - i,
        {
            let slot = self.values[i].0;
            let h = leaf_hash(slot, self.values[i].1.as_slice());
            buf.push(slot);
            buf.extend_from_slice(h.as_slice());
            i = i + 1;
            proof {
                assert(buf@ + values_blob(self.values@, i as int) =~= node_tag_spec()
                    + values_blob(self.values@, 0));
            }
        }
        proof {
            assert(values_blob(self.values@, nv as int) =~= Seq::<u8>::empty());
            assert(buf@ =~= node_tag_spec() + values_blob(self.values@, 0));
        }
        let nc = self.children.len();
        let mut j: usize = 0;
        while j < nc
            invariant
                nc == self.children@.len(),
                j <= nc,
                self.values == old(self).values,
                self.children == old(self).children,
                forall|k: int|
                    0 <= k < nc ==> (#[trigger] self.children@[k].1).commitment@
                        == node_commit_spec(self.children@[k].1),
                buf@ + children_blob(self.children@, j as int) == node_tag_spec() + values_blob(
                    self.values@,
                    0,
                ) + children_blob(self.children@, 0),
            decreases nc - j,
        {
            let slot = self.children[j].0;
            buf.push(slot);
            buf.extend_from_slice(self.children[j].1.commitment.as_slice());
            j = j + 1;
            proof {
                assert(buf@ + children_blob(self.children@, j as int) =~= node_tag_spec()
                    + values_blob(self.values@, 0) + children_blob(self.children@, 0));
            }
        }
        proof {
            assert(children_blob(self.children@, nc as int) =~= Seq::<u8>::empty());
            assert(buf@ =~= node_tag_spec() + values_blob(self.values@, 0) + children_blob(
                self.children@,
                0,
            ));
        }
        let c = keccak256(buf.as_slice());
        self.commitment = c;
    }
}

/// Binds `value` to slot `b` of a sorted value list; reports whether the
/// slot was already bound.
fn upsert_value(values: &mut Vec<(u8, Vec<u8>)>, b: u8, value: Vec<u8>) -> (existed: bool)
    requires
        vslots_sorted(old(values)@),
    ensures
        vslots_sorted(final(values)@),
        existed <==> has_slot(old(values)@, b),
        has_slot(final(values)@, b),
{
    let n = values.len();
    let mut p: usize = 0;
    while p < n && values[p].0 < b
        invariant
            n == values@.len(),
            p <= n,
            values@ == old(values)@,
            forall|j: int| 0 <= j < p ==> (#[trigger] values@[j].0) < b,
        decreases n - p,
    {
        p = p + 1;
    }
    if p < n && values[p].0 == b {
        let mut entry = values.remove(p);
        entry.1 = value;
        values.insert(p, entry);
        proof {
            let os = old(values)@;
            let cs = values@;
            assert(cs.len() == os.len());
            assert forall|i: int, j: int| 0 <= i < j < cs.len() implies (#[trigger] cs[i].0)
                < (#[trigger] cs[j].0) by {
                assert(cs[i].0 == os[i].0 && cs[j].0 == os[j].0);
            }
            assert(cs[p as int].0 == b);
        }
        true
    } else {
        proof {
            if p < n {
                assert(old(values)@[p as int].0 > b);
            }
            assert forall|i: int|
                0 <= i < old(values)@.len() implies (#[trigger] old(values)@[i].0) != b by {
                if i < p {
                } else if p < n && i >= p {
                    assert(old(values)@[p as int].0 <= old(values)@[i].0);
                }
            }
        }
        values.insert(p, (b, value));
        proof {
            let os = old(values)@;
            let cs = values@;
            assert(cs == os.insert(p as int, (b, value)));
            assert forall|i: int, j: int| 0 <= i < j < cs.len() implies (#[trigger] cs[i].0)
                < (#[trigger] cs[j].0) by {
                if i < p {
                    assert(cs[i] == os[i]);
                }
                if i > p {
                    assert(cs[i] == os[i - 1]);
                    assert(os[p as int].0 <= os[i - 1].0);
                }
                if j < p {
                    assert(cs[j] == os[j]);
                }
                if j > p {
                    assert(cs[j] == os[j - 1]);
                    if p < n {
                        if j - 1 > p {
                            assert(os[p as int].0 < os[j - 1].0);
                        }
                    }
                }
                if i == p {
                    assert(cs[i].0 == b);
                }
                if j == p {
                    assert(cs[j].0 == b);
                }
            }
            assert(cs[p as int].0 == b);
        }
        false
    }
}

/// The byte-trie commitment tree.
pub struct VerkleTree {
    /// The root node.
    pub root: VerkleNode,
    /// The number of distinct keys inserted.
    pub key_count: u64,
    /// The configured key ceiling.
    pub max_keys: u64,
    /// True once commitments have been served since the last mutation.
    pub cache_valid: bool,
}

impl VerkleTree {
    /// The root node's commitment.
    pub closed spec fn root_commit_spec(&self) -> Seq<u8> {
        node_commit_spec(self.root)
    }

    /// Whether `key` is bound.
    pub closed spec fn contains_spec(&self, key: Seq<u8>) -> bool {
        vcontains_spec(self.root, key, 0)
    }

    /// The tree's structural invariant.
    pub closed spec fn well_formed(&self) -> bool {
        vnode_wf(self.root)
    }

    /// An empty tree with the default key ceiling.
    pub fn new() -> (r: Self)
        ensures
            r.well_formed(),
            r.key_count == 0,
            r.max_keys == MAX_KEYS,
            r.cache_valid == false,
    {
        VerkleTree { root: VerkleNode::new(), key_count: 0, max_keys: MAX_KEYS, cache_valid: false }
    }

    /// Binds `value` to `key`. Fails with `CapacityExceeded` at the key
    /// ceiling, leaving the tree unchanged; a repeated key overwrites and
    /// does not raise the count.
    pub fn insert(&mut self, key: Vec<u8>, value: Vec<u8>) -> (r: Result<(), TreeError>)
        requires
            old(self).well_formed(),
        ensures
            final(self).well_formed(),
            final(self).max_keys == old(self).max_keys,
            (r matches Err(e) && e == TreeError::CapacityExceeded) <==> old(self).key_count >= old(
                self,
            ).max_keys,
            r is Err <==> (r matches Err(e) && e == TreeError::CapacityExceeded),
            r is Err ==> *final(self) == *old(self),
            r matches Ok(_) ==> final(self).key_count == old(self).key_count + (
            if old(self).contains_spec(key@) {
                0int
            } else {
                1int
            }) && !final(self).cache_valid,
            r matches Ok(_) ==> final(self).contains_spec(key@),
    {
        if self.key_count >= self.max_keys {
            return Err(TreeError::CapacityExceeded);
        }
        let existed = Self::insert_rec(&mut self.root, key.as_slice(), value, 0);
        if !existed {
            self.key_count = self.key_count + 1;
        }
        self.cache_valid = false;
        Ok(())
    }

    fn insert_rec(node: &mut VerkleNode, key: &[u8], value: Vec<u8>, depth: usize) -> (existed:
        bool)
        requires
            vnode_wf(*old(node)),
            key@.len() > 0 ==> depth < key@.len(),
        ensures
            vnode_wf(*final(node)),
            existed <==> vcontains_spec(*old(node), key@, depth as int),
            vcontains_spec(*final(node), key@, depth as int),
        decreases key@.len() - depth,
    {
        let ghost pre = *old(node);
        if key.len() == 0 {
            proof {
                lemma_vchildren_commitments_valid(node.children@);
            }
            let existed = upsert_value(&mut node.values, 0, value);
            node.refresh_commitment();
            return existed;
        }
        if depth == key.len() - 1 {
            let b = key[depth];
            proof {
                lemma_vchildren_commitments_valid(node.children@);
            }
            let existed = upsert_value(&mut node.values, b, value);
            node.refresh_commitment();
            return existed;
        }
        let b = key[depth];
        let n = node.children.len();
        let mut i: usize = 0;
        while i < n && node.children[i].0 < b
            invariant
                *node == pre,
                n == node.children@.len(),
                i <= n,
                forall|j: int| 0 <= j < i ==> (#[trigger] node.children@[j].0) < b,
            decreases n - i,
        {
            i = i + 1;
        }
        let had_child = i < n && node.children[i].0 == b;
        if !had_child {
            // No child on this byte yet: add an empty one in order.
            proof {
                if i < n {
                    assert(pre.children@[i as int].0 > b);
                }
                assert forall|j: int|
                    0 <= j < pre.children@.len() implies (#[trigger] pre.children@[j].0) != b by {
                    if j >= i && i < n {
                        assert(pre.children@[i as int].0 <= pre.children@[j].0);
                    }
                }
            }
            let fresh = VerkleNode::new();
            proof {
                assert(!vcontains_spec(fresh, key@, depth as int + 1));
            }
            node.children.insert(i, (b, fresh));
            proof {
                let os = pre.children@;
                let cs = node.children@;
                assert(cs == os.insert(i as int, (b, fresh)));
                assert(cs[i as int].1 == fresh);
                assert forall|x: int, y: int| 0 <= x < y < cs.len() implies (#[trigger] cs[x].0)
                    < (#[trigger] cs[y].0) by {
                    if x < i {
                        assert(cs[x] == os[x]);
                    }
                    if x > i {
                        assert(cs[x] == os[x - 1]);
                        assert(os[i as int].0 <= os[x - 1].0);
                    }
                    if y < i {
                        assert(cs[y] == os[y]);
                    }
                    if y > i {
                        assert(cs[y] == os[y - 1]);
                        if i < n && y - 1 > i {
                            assert(os[i as int].0 < os[y - 1].0);
                        }
                    }
                    if x == i {
                        assert(cs[x].0 == b);
                    }
                    if y == i {
                        assert(cs[y].0 == b);
                    }
                }
                assert forall|k: int| 0 <= k < cs.len() implies vnode_wf(
                    #[trigger] cs[k].1,
                ) by {
                    if k < i {
                        assert(cs[k] == os[k]);
                    } else if k > i {
                        assert(cs[k] == os[k - 1]);
                    }
                }
                lemma_vfind_child_skip(pre.children@, b, pre.children@.len() as int);
                assert(pre.children@.skip(pre.children@.len() as int).len() == 0);
            }
        } else {
            proof {
                lemma_vfind_child_skip(pre.children@, b, i as int);
                assert(pre.children@.skip(i as int).len() > 0);
                assert(pre.children@.skip(i as int)[0] == pre.children@[i as int]);
            }
        }
        // The child on byte `b` now exists at position `i`.
        let ghost mid = *node;
        let (cb, mut child) = node.children.remove(i);
        proof {
            assert(mid.children@[i as int] == (cb, child));
        }
        let existed = Self::insert_rec(&mut child, key, value, depth + 1);
        node.children.insert(i, (cb, child));
        proof {
            assert(node.children@ =~= mid.children@.update(i as int, (cb, child)));
            assert forall|k: int| 0 <= k < node.children@.len() implies vnode_wf(
                #[trigger] node.children@[k].1,
            ) && node.children@[k].0 == mid.children@[k].0 by {
                if k != i {
                    assert(node.children@[k] == mid.children@[k]);
                }
            }
            assert forall|x: int, y: int| 0 <= x < y < node.children@.len() implies (
            #[trigger] node.children@[x].0) < (#[trigger] node.children@[y].0) by {
                assert(node.children@[x].0 == mid.children@[x].0);
                assert(node.children@[y].0 == mid.children@[y].0);
            }
            lemma_vchildren_commitments_valid(node.children@);
            if had_child {
                assert(vfind_child(pre.children@, b) == Some(mid.children@[i as int].1));
                assert(vcontains_spec(pre, key@, depth as int) == vcontains_spec(
                    mid.children@[i as int].1,
                    key@,
                    depth as int + 1,
                ));
            } else {
                assert(vfind_child(pre.children@, b) is None);
                assert(!vcontains_spec(pre, key@, depth as int));
                assert(!vcontains_spec(mid.children@[i as int].1, key@, depth as int + 1));
            }
            assert forall|k: int| 0 <= k < i implies (#[trigger] node.children@[k].0) != b by {
                assert(node.children@[k].0 == mid.children@[k].0);
                assert(mid.children@[k].0 < b || mid.children@[k].0 != b);
            }
            lemma_vfind_child_at(node.children@, b, i as int);
        }
        node.refresh_commitment();
        existed
    }

    /// A proof for `key`, or `None` when the key is absent or empty.
    pub fn get_proof(&mut self, key: &[u8]) -> (r: Option<VerkleProof>)
        requires
            old(self).well_formed(),
        ensures
            final(self).well_formed(),
            final(self).key_count == old(self).key_count,
            final(self).max_keys == old(self).max_keys,
            final(self).root_commit_spec() == old(self).root_commit_spec(),
            r is Some <==> proofable_spec(old(self).root, key@, 0),
            r matches Some(p) ==> p.siblings@.len() == p.indices@.len() && p.path@.len()
                == p.siblings_per_level@.len(),
            r matches Some(p) ==> p.path@ == key@ && p.siblings_per_level@.len() == key@.len(),
    {
        self.cache_valid = true;
        let mut path: Vec<u8> = Vec::new();
        let mut siblings: Vec<String> = Vec::new();
        let mut indices: Vec<usize> = Vec::new();
        let mut per_level: Vec<usize> = Vec::new();
        if Self::build_proof(&self.root, key, 0, &mut path, &mut siblings, &mut indices,
            &mut per_level) {
            proof {
                assert(path@ =~= key@) by {
                    assert(key@.subrange(0, key@.len() as int) =~= key@);
                }
            }
            Some(VerkleProof { path, siblings, indices, siblings_per_level: per_level })
        } else {
            None
        }
    }

    fn build_proof(
        node: &VerkleNode,
        key: &[u8],
        depth: usize,
        path: &mut Vec<u8>,
        siblings: &mut Vec<String>,
        indices: &mut Vec<usize>,
        per_level: &mut Vec<usize>,
    ) -> (r: bool)
        requires
            vnode_wf(*node),
            old(siblings)@.len() == old(indices)@.len(),
            old(path)@.len() == old(per_level)@.len(),
        ensures
            final(siblings)@.len() == final(indices)@.len(),
            r <==> proofable_spec(*node, key@, depth as int),
            r ==> final(path)@.len() == final(per_level)@.len(),
            r ==> final(path)@ == old(path)@ + key@.subrange(depth as int, key@.len() as int),
            r ==> final(per_level)@.len() == old(per_level)@.len() + key@.len() - depth,
        decreases key@.len() - depth,
    {
        if depth >= key.len() {
            return false;
        }
        let byte = key[depth];
        path.push(byte);
        let level_start = siblings.len();
        if depth == key.len() - 1 {
            // Leaf level: the slot must be bound; every other value slot and
            // every child slot becomes a sibling.
            let nv = node.values.len();
            let mut found = false;
            let mut k: usize = 0;
            while k < nv
                invariant
                    nv == node.values@.len(),
                    k <= nv,
                    siblings@.len() == indices@.len(),
                    siblings@.len() >= level_start,
                    path@.len() == per_level@.len() + 1,
                    path@ == old(path)@.push(key@[depth as int]),
                    per_level@ == old(per_level)@,
                    found <==> exists|j: int|
                        0 <= j < k && (#[trigger] node.values@[j].0) == byte,
                decreases nv - k,
            {
                if node.values[k].0 == byte {
                    found = true;
                } else {
                    let h = leaf_hash(node.values[k].0, node.values[k].1.as_slice());
                    siblings.push(encode_hex(h.as_slice()));
                    indices.push(node.values[k].0 as usize);
                }
                k = k + 1;
            }
            if !found {
                proof {
                    assert(!has_slot(node.values@, byte));
                }
                return false;
            }
            let nc = node.children.len();
            let mut c: usize = 0;
            while c < nc
                invariant
                    nc == node.children@.len(),
                    c <= nc,
                    siblings@.len() == indices@.len(),
                    siblings@.len() >= level_start,
                    path@.len() == per_level@.len() + 1,
                    path@ == old(path)@.push(key@[depth as int]),
                    per_level@ == old(per_level)@,
                decreases nc - c,
            {
                siblings.push(encode_hex(node.children[c].1.commitment.as_slice()));
                indices.push(node.children[c].0 as usize);
                c = c + 1;
            }
            let count = siblings.len() - level_start;
            per_level.push(count);
            proof {
                assert(path@ =~= old(path)@ + key@.subrange(depth as int, key@.len() as int));
            }
            return true;
        }
        // Internal level: descend into the child on `byte`, recording every
        // value slot and every other child slot as a sibling.
        let n = node.children.len();
        let mut i: usize = 0;
        while i < n && node.children[i].0 != byte
            invariant
                n == node.children@.len(),
                i <= n,
                siblings@.len() == indices@.len(),
                siblings@.len() >= level_start,
                path@.len() == per_level@.len() + 1,
                path@ == old(path)@.push(key@[depth as int]),
                per_level@ == old(per_level)@,
                forall|j: int| 0 <= j < i ==> (#[trigger] node.children@[j].0) != byte,
            decreases n - i,
        {
            i = i + 1;
        }
        if i >= n {
            proof {
                lemma_vfind_child_skip(node.children@, byte, n as int);
                assert(node.children@.skip(n as int).len() == 0);
            }
            return false;
        }
        proof {
            lemma_vfind_child_skip(node.children@, byte, i as int);
            assert(node.children@.skip(i as int).len() > 0);
            assert(node.children@.skip(i as int)[0] == node.children@[i as int]);
            assert(vfind_child(node.children@, byte) == Some(node.children@[i as int].1));
        }
        let nv = node.values.len();
        let mut k: usize = 0;
        while k < nv
            invariant
                nv == node.values@.len(),
                k <= nv,
                siblings@.len() == indices@.len(),
                siblings@.len() >= level_start,
                path@.len() == per_level@.len() + 1,
                path@ == old(path)@.push(key@[depth as int]),
                per_level@ == old(per_level)@,
            decreases nv - k,
        {
            let h = leaf_hash(node.values[k].0, node.values[k].1.as_slice());
            siblings.push(encode_hex(h.as_slice()));
            indices.push(node.values[k].0 as usize);
            k = k + 1;
        }
        let mut c: usize = 0;
        while c < n
            invariant
                n == node.children@.len(),
                c <= n,
                siblings@.len() == indices@.len(),
                siblings@.len() >= level_start,
                path@.len() == per_level@.len() + 1,
                path@ == old(path)@.push(key@[depth as int]),
                per_level@ == old(per_level)@,
            decreases n - c,
        {
            if c != i {
                siblings.push(encode_hex(node.children[c].1.commitment.as_slice()));
                indices.push(node.children[c].0 as usize);
            }
            c = c + 1;
        }
        let count = siblings.len() - level_start;
        per_level.push(count);
        let ghost mid_path = path@;
        let r = Self::build_proof(
            &node.children[i].1,
            key,
            depth + 1,
            path,
            siblings,
            indices,
            per_level,
        );
        proof {
            if r {
                assert(path@ == mid_path + key@.subrange(depth as int + 1, key@.len() as int));
                assert(path@ =~= old(path)@ + key@.subrange(depth as int, key@.len() as int));
            }
        }
        r
    }

    /// The root commitment; always available, and recomputed eagerly on
    /// every mutation.
    pub fn root_commitment(&mut self) -> (r: Option<Vec<u8>>)
        requires
            old(self).well_formed(),
        ensures
            final(self).well_formed(),
            final(self).key_count == old(self).key_count,
            final(self).max_keys == old(self).max_keys,
            final(self).root_commit_spec() == old(self).root_commit_spec(),
            final(self).cache_valid,
            r matches Some(c) && c@ == old(self).root_commit_spec(),
    {
        self.cache_valid = true;
        Some(copy_bytes(&self.root.commitment))
    }

    /// True exactly when the commitment recomputed from the proof equals
    /// `expected_root`.
    pub fn _verify_proof(
        &self,
        key: &[u8],
        value: &[u8],
        proof: &VerkleProof,
        expected_root: &[u8],
    ) -> (r: bool)
        ensures
            r == (simulate_spec(
                key@,
                value@,
                proof.path@,
                Seq::new(proof.siblings@.len(), |i: int| proof.siblings@[i]@),
                proof.indices@,
                proof.siblings_per_level@,
            ) == expected_root@),
    {
        let sim = self.simulate_commitment(key, value, proof);
        crate::merkle_tree::bytes_eq(sim.as_slice(), expected_root)
    }

    /// Recomputes the root commitment a proof claims, starting from the leaf
    /// hash of `(key, value)` and folding one level at a time: at each level
    /// the proof's siblings for that level and the running commitment are
    /// ordered by slot (equal slots keep the proof's order, the running
    /// commitment last) and hashed as a node. A shape mismatch, or a proof
    /// whose level counts outrun its sibling list, yields the empty vector.
    pub fn simulate_commitment(&self, key: &[u8], value: &[u8], proof: &VerkleProof) -> (r: Vec<
        u8,
    >)
        ensures
            r@ == simulate_spec(
                key@,
                value@,
                proof.path@,
                Seq::new(proof.siblings@.len(), |i: int| proof.siblings@[i]@),
                proof.indices@,
                proof.siblings_per_level@,
            ),
    {
        let ghost sibs = Seq::new(proof.siblings@.len(), |i: int| proof.siblings@[i]@);
        let ghost idxs = proof.indices@;
        let ghost spl = proof.siblings_per_level@;
        if proof.siblings.len() != proof.indices.len() || proof.path.len()
            != proof.siblings_per_level.len() {
            return Vec::new();
        }
        let depth = proof.path.len();
        if depth == 0 {
            return Vec::new();
        }
        let last = if key.len() > 0 {
            key[key.len() - 1]
        } else {
            0
        };
        let my_leaf = leaf_hash(last, value);
        let n_leaf = proof.siblings_per_level[depth - 1];
        if n_leaf > proof.siblings.len() {
            return Vec::new();
        }
        let mut entries: Vec<(u8, Vec<u8>)> = Vec::new();
        entries.push((last, my_leaf));
        let mut t: usize = 0;
        proof {
            assert(entry_views(entries@) =~= seq![(last, leaf_hash_spec(last, value@))]
                + sib_entries(sibs, idxs, 0, 0));
        }
        while t < n_leaf
            invariant
                sibs == Seq::new(proof.siblings@.len(), |i: int| proof.siblings@[i]@),
                idxs == proof.indices@,
                n_leaf <= proof.siblings@.len(),
                proof.siblings@.len() == proof.indices@.len(),
                t <= n_leaf,
                entry_views(entries@) =~~= seq![(last, leaf_hash_spec(last, value@))]
                    + sib_entries(sibs, idxs, 0, t as int),
            decreases n_leaf - t,
        {
            let idx_b = #[verifier::truncate] (proof.indices[t] as u8);
            let sib_h = match decode_hex(proof.siblings[t].as_str()) {
                Some(v) => v,
                None => Vec::new(),
            };
            proof {
                assert(sibs[t as int] == proof.siblings@[t as int]@);
                assert(sib_h@ == decode_or_empty(sibs[t as int]));
                assert(idx_b == (idxs[t as int] as u8));
            }
            let ghost pre_entries = entries@;
            entries.push((idx_b, sib_h));
            t = t + 1;
            proof {
                lemma_sib_entries_snoc(sibs, idxs, 0, t as int);
                assert(entry_views(entries@) =~~= entry_views(pre_entries).push(
                    ((idxs[t as int - 1] as u8), decode_or_empty(sibs[t as int - 1])),
                ));
                assert(entry_views(entries@) =~~= seq![(last, leaf_hash_spec(last, value@))]
                    + sib_entries(sibs, idxs, 0, t as int));
            }
        }
        let mut commit = hash_entries(entries);
        let mut sib_idx = n_leaf;
        let mut lvl = depth - 1;
        proof {
            assert(seq![(last, leaf_hash_spec(last, value@))] + sib_entries(
                sibs,
                idxs,
                0,
                n_leaf as int,
            ) =~= entry_views(seq![]).push((last, leaf_hash_spec(last, value@))) + sib_entries(
                sibs,
                idxs,
                0,
                n_leaf as int,
            ));
        }
        while lvl > 0
            invariant
                sibs == Seq::new(proof.siblings@.len(), |i: int| proof.siblings@[i]@),
                idxs == proof.indices@,
                spl == proof.siblings_per_level@,
                proof.siblings@.len() == proof.indices@.len(),
                depth == proof.path@.len(),
                depth == spl.len(),
                lvl <= depth,
                sib_idx <= proof.siblings@.len(),
                simulate_spec(key@, value@, proof.path@, sibs, idxs, spl) == ascend_spec(
                    proof.path@,
                    spl,
                    sibs,
                    idxs,
                    commit@,
                    lvl as int - 1,
                    sib_idx as int,
                ),
            decreases lvl,
        {
            let i = lvl - 1;
            let n = proof.siblings_per_level[i];
            if n > proof.siblings.len() - sib_idx {
                return Vec::new();
            }
            let total = proof.siblings.len();
            let mut lvl_entries: Vec<(u8, Vec<u8>)> = Vec::new();
            let mut t2: usize = 0;
            proof {
                assert(entry_views(lvl_entries@) =~~= sib_entries(sibs, idxs, sib_idx as int, 0));
            }
            while t2 < n
                invariant
                    sibs == Seq::new(proof.siblings@.len(), |i: int| proof.siblings@[i]@),
                    idxs == proof.indices@,
                    total == proof.siblings@.len(),
                    proof.siblings@.len() == proof.indices@.len(),
                    sib_idx + n <= total,
                    t2 <= n,
                    entry_views(lvl_entries@) =~~= sib_entries(
                        sibs,
                        idxs,
                        sib_idx as int,
                        t2 as int,
                    ),
                decreases n - t2,
            {
                let idx_b = #[verifier::truncate] (proof.indices[sib_idx + t2] as u8);
                let sib_h = match decode_hex(proof.siblings[sib_idx + t2].as_str()) {
                    Some(v) => v,
                    None => Vec::new(),
                };
                lvl_entries.push((idx_b, sib_h));
                t2 = t2 + 1;
                proof {
                    lemma_sib_entries_snoc(sibs, idxs, sib_idx as int, t2 as int);
                    assert(entry_views(lvl_entries@) =~~= sib_entries(
                        sibs,
                        idxs,
                        sib_idx as int,
                        t2 as int,
                    ));
                }
            }
            let slot = proof.path[i];
            lvl_entries.push((slot, commit));
            proof {
                assert(entry_views(lvl_entries@) =~~= sib_entries(
                    sibs,
                    idxs,
                    sib_idx as int,
                    n as int,
                ).push((slot, commit@)));
            }
            commit = hash_entries(lvl_entries);
            sib_idx = sib_idx + n;
            lvl = i;
        }
        proof {
            assert(ascend_spec(proof.path@, spl, sibs, idxs, commit@, -1, sib_idx as int)
                == commit@);
        }
        commit
    }
}

/// The slot/byte views of a list of entries.
pub open spec fn entry_views(s: Seq<(u8, Vec<u8>)>) -> Seq<(u8, Seq<u8>)> {
    Seq::new(s.len(), |i: int| (s[i].0, s[i].1@))
}

/// The bytes a hex sibling denotes, or the empty sequence when malformed.
pub open spec fn decode_or_empty(s: Seq<char>) -> Seq<u8> {
    if hex_valid(encode_utf8(s)) {
        hex_decode_bytes(encode_utf8(s))
    } else {
        Seq::empty()
    }
}

/// The `count` proof entries starting at sibling position `start`: each is
/// the sibling's slot byte (the stored index truncated to a byte) and its
/// decoded hash.
pub open spec fn sib_entries(
    sibs: Seq<Seq<char>>,
    idxs: Seq<usize>,
    start: int,
    count: int,
) -> Seq<(u8, Seq<u8>)>
    decreases count,
{
    if count <= 0 || start < 0 || start >= sibs.len() || start >= idxs.len() {
        Seq::empty()
    } else {
        seq![((idxs[start] as u8), decode_or_empty(sibs[start]))] + sib_entries(
            sibs,
            idxs,
            start + 1,
            count - 1,
        )
    }
}

/// Taking one more proof entry appends it at the end.
proof fn lemma_sib_entries_snoc(sibs: Seq<Seq<char>>, idxs: Seq<usize>, start: int, count: int)
    requires
        count >= 1,
        0 <= start,
        start + count <= sibs.len(),
        start + count <= idxs.len(),
    ensures
        sib_entries(sibs, idxs, start, count) =~~= sib_entries(sibs, idxs, start, count - 1).push(
            ((idxs[start + count - 1] as u8), decode_or_empty(sibs[start + count - 1])),
        ),
    decreases count,
{
    reveal_with_fuel(sib_entries, 3);
    if count == 1 {
        assert(sib_entries(sibs, idxs, start, 0) =~~= Seq::<(u8, Seq<u8>)>::empty());
        assert(sib_entries(sibs, idxs, start, 1) =~~= Seq::<(u8, Seq<u8>)>::empty().push(
            ((idxs[start] as u8), decode_or_empty(sibs[start])),
        ));
    } else {
        lemma_sib_entries_snoc(sibs, idxs, start + 1, count - 1);
        assert(sib_entries(sibs, idxs, start, count) =~~= sib_entries(
            sibs,
            idxs,
            start,
            count - 1,
        ).push(((idxs[start + count - 1] as u8), decode_or_empty(sibs[start + count - 1]))));
    }
}

/// Inserts `e` before the longest all-greater suffix, so that equal slots
/// keep their earlier-first order.
pub open spec fn stable_insert(s: Seq<(u8, Seq<u8>)>, e: (u8, Seq<u8>)) -> Seq<(u8, Seq<u8>)>
    decreases s.len(),
{
    if s.len() == 0 {
        seq![e]
    } else if s.last().0 > e.0 {
        stable_insert(s.drop_last(), e).push(s.last())
    } else {
        s.push(e)
    }
}

/// Sorts entries by slot, stably, by inserting from left to right.
pub open spec fn stable_sort(s: Seq<(u8, Seq<u8>)>) -> Seq<(u8, Seq<u8>)>
    decreases s.len(),
{
    if s.len() == 0 {
        Seq::empty()
    } else {
        stable_insert(stable_sort(s.drop_last()), s.last())
    }
}

/// The packed `slot ++ hash` data of `es[i ..]`.
pub open spec fn pack_entries(es: Seq<(u8, Seq<u8>)>, i: int) -> Seq<u8>
    decreases es.len() - i,
{
    if i < 0 || i >= es.len() {
        Seq::empty()
    } else {
        seq![es[i].0] + es[i].1 + pack_entries(es, i + 1)
    }
}

/// The node hash of a collected level: sort stably, pack, hash.
pub open spec fn level_commit_spec(entries: Seq<(u8, Seq<u8>)>) -> Seq<u8> {
    keccak_spec(node_tag_spec() + pack_entries(stable_sort(entries), 0))
}

/// What `simulate_commitment` returns.
pub open spec fn simulate_spec(
    key: Seq<u8>,
    value: Seq<u8>,
    path: Seq<u8>,
    sibs: Seq<Seq<char>>,
    idxs: Seq<usize>,
    spl: Seq<usize>,
) -> Seq<u8> {
    if sibs.len() != idxs.len() || path.len() != spl.len() || path.len() == 0 {
        Seq::empty()
    } else {
        let last = if key.len() > 0 {
            key.last()
        } else {
            0u8
        };
        let n_leaf = spl[path.len() - 1] as int;
        if n_leaf > sibs.len() {
            Seq::empty()
        } else {
            let entries = seq![(last, leaf_hash_spec(last, value))] + sib_entries(
                sibs,
                idxs,
                0,
                n_leaf,
            );
            ascend_spec(path, spl, sibs, idxs, level_commit_spec(entries), path.len() - 2, n_leaf)
        }
    }
}

/// Folds the running commitment up the ancestor levels, from `i` down to the
/// root level; a level whose sibling count outruns the sibling list yields
/// the empty vector.
pub open spec fn ascend_spec(
    path: Seq<u8>,
    spl: Seq<usize>,
    sibs: Seq<Seq<char>>,
    idxs: Seq<usize>,
    commit: Seq<u8>,
    i: int,
    sib_idx: int,
) -> Seq<u8>
    decreases i + 1,
{
    if i < 0 {
        commit
    } else {
        let n = spl[i] as int;
        if sib_idx < 0 || sib_idx + n > sibs.len() {
            Seq::empty()
        } else {
            let entries = sib_entries(sibs, idxs, sib_idx, n).push((path[i], commit));
            ascend_spec(path, spl, sibs, idxs, level_commit_spec(entries), i - 1, sib_idx + n)
        }
    }
}

/// Inserting at the boundary between the not-greater prefix and the
/// all-greater suffix is what `stable_insert` does.
proof fn lemma_stable_insert_at(s: Seq<(u8, Seq<u8>)>, e: (u8, Seq<u8>), p: int)
    requires
        0 <= p <= s.len(),
        forall|k: int| p <= k < s.len() ==> (#[trigger] s[k].0) > e.0,
        p > 0 ==> s[p - 1].0 <= e.0,
    ensures
        stable_insert(s, e) == s.insert(p, e),
    decreases s.len() - p,
{
    if p == s.len() {
        if s.len() == 0 {
            assert(stable_insert(s, e) =~= s.insert(p, e));
        } else {
            assert(s.last().0 <= e.0);
            assert(stable_insert(s, e) == s.push(e));
            assert(s.push(e) =~= s.insert(p, e));
        }
    } else {
        assert(s.last().0 > e.0);
        lemma_stable_insert_at(s.drop_last(), e, p);
        assert(stable_insert(s, e) == stable_insert(s.drop_last(), e).push(s.last()));
        assert(s.drop_last().insert(p, e).push(s.last()) =~= s.insert(p, e));
    }
}

/// Insertion sort over entry pairs, stable in slot order.
fn sort_entries(entries: &Vec<(u8, Vec<u8>)>) -> (r: Vec<(u8, Vec<u8>)>)
    ensures
        entry_views(r@) == stable_sort(entry_views(entries@)),
{
    let n = entries.len();
    let mut out: Vec<(u8, Vec<u8>)> = Vec::new();
    let mut i: usize = 0;
    proof {
        assert(entry_views(entries@).take(0) =~= Seq::<(u8, Seq<u8>)>::empty());
        assert(entry_views(out@) =~= stable_sort(entry_views(entries@).take(0)));
    }
    while i < n
        invariant
            n == entries@.len(),
            i <= n,
            entry_views(out@) == stable_sort(entry_views(entries@).take(i as int)),
        decreases n - i,
    {
        let e = (entries[i].0, copy_bytes(&entries[i].1));
        let m = out.len();
        let mut p: usize = m;
        while p > 0 && out[p - 1].0 > e.0
            invariant
                m == out@.len(),
                p <= m,
                forall|k: int| p <= k < m ==> (#[trigger] out@[k].0) > e.0,
            decreases p,
        {
            p = p - 1;
        }
        let ghost pre_out = entry_views(out@);
        proof {
            lemma_stable_insert_at(pre_out, (e.0, e.1@), p as int);
        }
        out.insert(p, e);
        i = i + 1;
        proof {
            let taken = entry_views(entries@).take(i as int);
            assert(taken.drop_last() =~= entry_views(entries@).take(i as int - 1));
            assert(taken.last() == (entries@[i as int - 1].0, entries@[i as int - 1].1@));
            assert(stable_sort(taken) == stable_insert(
                stable_sort(taken.drop_last()),
                taken.last(),
            ));
            assert(entry_views(out@) =~= pre_out.insert(p as int, (e.0, e.1@)));
        }
    }
    proof {
        assert(entry_views(entries@).take(n as int) =~= entry_views(entries@));
    }
    out
}

/// Sorts the collected entries, packs them as `slot ++ hash`, and hashes the
/// node data.
fn hash_entries(entries: Vec<(u8, Vec<u8>)>) -> (r: Vec<u8>)
    ensures
        r@ == level_commit_spec(entry_views(entries@)),
        r@.len() == 32,
{
    let sorted = sort_entries(&entries);
    let mut buf: Vec<u8> = Vec::new();
    buf.push(110u8);
    buf.push(111u8);
    buf.push(100u8);
    buf.push(101u8);
    buf.push(58u8);
    proof {
        assert(buf@ =~= node_tag_spec());
    }
    let ghost sv = entry_views(sorted@);
    let n = sorted.len();
    let mut i: usize = 0;
    while i < n
        invariant
            n == sorted@.len(),
            sv == entry_views(sorted@),
            i <= n,
            buf@ + pack_entries(sv, i as int) == node_tag_spec() + pack_entries(sv, 0),
        decreases n - i,
    {
        buf.push(sorted[i].0);
        buf.extend_from_slice(sorted[i].1.as_slice());
        i = i + 1;
        proof {
            assert(buf@ + pack_entries(sv, i as int) =~= node_tag_spec() + pack_entries(sv, 0));
        }
    }
    proof {
        assert(pack_entries(sv, n as int) =~= Seq::<u8>::empty());
        assert(buf@ =~= node_tag_spec() + pack_entries(sv, 0));
    }
    keccak256(buf.as_slice())
}

impl Default for VerkleTree {
    /// Same as `new`.
    fn default() -> (r: Self)
        ensures
            r.well_formed(),
            r.key_count == 0,
            r.max_keys == MAX_KEYS,
            r.cache_valid == false,
    {
        Self::new()
    }
}

} // verus!
