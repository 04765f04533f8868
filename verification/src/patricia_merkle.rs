//! A compressed radix (Patricia) Merkle tree over byte keys.
//!
//! Each node carries a key fragment; a path's bytes are the concatenation of
//! fragments and one branching byte per edge. Leaves hash as
//! `keccak(fragment ++ value)`; internal nodes hash as `keccak(fragment ++
//! child hashes in byte order)`. Every node stores its subtree hash, kept
//! valid on every mutation, so queries never recompute the whole tree.

use vstd::prelude::*;

use crate::hashing::{hash_data, hash_pair, hash_pair_spec, keccak256, keccak_spec};
use crate::hexstr::{decode_hex, encode_hex, hex_decode_bytes, hex_valid};
use crate::merkle_tree::{bytes_eq, copy_bytes};
use crate::TreeError;

verus! {

use vstd::utf8::encode_utf8;

/// The deepest descent any key may force.
pub const MAX_LEVELS: usize = 32;

/// The default key ceiling.
pub const MAX_KEYS: u64 = 4294967296;

/// A membership proof: the traversed path bytes, the sibling hashes met on
/// the way, and for each sibling whether it lies to the right of the path.
#[derive(Debug, Clone)]
pub struct PatriciaProof {
    pub path: Vec<u8>,
    pub siblings: Vec<String>,
    pub directions: Vec<bool>,
}

impl View for PatriciaProof {
    type V = (Seq<u8>, Seq<Seq<char>>, Seq<bool>);

    open spec fn view(&self) -> (Seq<u8>, Seq<Seq<char>>, Seq<bool>) {
        (
            self.path@,
            Seq::new(self.siblings@.len(), |i: int| self.siblings@[i]@),
            self.directions@,
        )
    }
}

/// One tree node: a fragment of the key, an optional value, and children
/// keyed by their branching byte, sorted and unique.
pub struct PatriciaNode {
    pub key_fragment: Vec<u8>,
    pub value: Option<Vec<u8>>,
    pub children: Vec<(u8, PatriciaNode)>,
    pub hash: Vec<u8>,
}

/// Children are strictly ordered by branching byte.
pub open spec fn children_sorted(cs: Seq<(u8, PatriciaNode)>) -> bool {
    forall|i: int, j: int| 0 <= i < j < cs.len() ==> (#[trigger] cs[i].0) < (#[trigger] cs[j].0)
}

/// The hash of a subtree: a childless node hashes its fragment (and value,
/// when present); a branching node hashes its fragment followed by its
/// children's hashes in byte order.
pub open spec fn node_hash_spec(n: PatriciaNode) -> Seq<u8>
    decreases n, 1int, 0int,
{
    if n.children@.len() == 0 {
        match n.value {
            Some(v) => keccak_spec(n.key_fragment@ + v@),
            None => keccak_spec(n.key_fragment@),
        }
    } else {
        keccak_spec(n.key_fragment@ + children_blob(n.children@, 0))
    }
}

/// The concatenated hashes of `cs[i ..]`.
pub open spec fn children_blob(cs: Seq<(u8, PatriciaNode)>, i: int) -> Seq<u8>
    decreases cs, 0int, cs.len() - i,
{
    if i < 0 || i >= cs.len() {
        Seq::empty()
    } else {
        node_hash_spec(cs[i].1) + children_blob(cs, i + 1)
    }
}

/// Well-formedness: children sorted, stored hash equal to the subtree hash,
/// recursively.
pub open spec fn node_wf(n: PatriciaNode) -> bool
    decreases n,
{
    &&& children_sorted(n.children@)
    &&& n.hash@ == node_hash_spec(n)
    &&& forall|i: int| 0 <= i < n.children@.len() ==> node_wf(#[trigger] n.children@[i].1)
}

/// The child branching on byte `b`, if any.
pub open spec fn find_child(cs: Seq<(u8, PatriciaNode)>, b: u8) -> Option<PatriciaNode>
    decreases cs.len(),
{
    if cs.len() == 0 {
        None
    } else if cs[0].0 == b {
        Some(cs[0].1)
    } else {
        find_child(cs.drop_first(), b)
    }
}

/// The value stored for `key` under `n`, matching fragments from position
/// `depth` of the key.
pub open spec fn get_spec(n: PatriciaNode, key: Seq<u8>, depth: int) -> Option<Seq<u8>>
    recommends
        0 <= depth <= key.len(),
    decreases key.len() - depth,
{
    let frag = n.key_fragment@;
    if frag.len() > 0 && (key.len() - depth < frag.len() || key.subrange(depth, depth + frag.len())
        != frag) {
        None
    } else {
        let cd = depth + frag.len();
        if cd == key.len() {
            match n.value {
                Some(v) => Some(v@),
                None => None,
            }
        } else if cd > key.len() {
            None
        } else {
            match find_child(n.children@, key[cd]) {
                Some(c) => get_spec(c, key, cd + 1),
                None => None,
            }
        }
    }
}

/// When the first `i` children do not branch on `b`, the search outcome is
/// decided by the rest.
proof fn lemma_find_child_skip(cs: Seq<(u8, PatriciaNode)>, b: u8, i: int)
    requires
        0 <= i <= cs.len(),
        forall|j: int| 0 <= j < i ==> (#[trigger] cs[j].0) != b,
    ensures
        find_child(cs, b) == find_child(cs.skip(i), b),
    decreases i,
{
    if i > 0 {
        lemma_find_child_skip(cs, b, i - 1);
        assert(cs.skip(i - 1).len() > 0);
        assert(cs.skip(i - 1)[0] == cs[i - 1]);
        assert(cs[i - 1].0 != b);
        assert(find_child(cs.skip(i - 1), b) == find_child(cs.skip(i - 1).drop_first(), b));
        assert(cs.skip(i - 1).drop_first() =~= cs.skip(i));
    } else {
        assert(cs.skip(0) =~= cs);
    }
}

/// The first child branching on `b` is the one the search returns.
proof fn lemma_find_child_at(cs: Seq<(u8, PatriciaNode)>, b: u8, j: int)
    requires
        0 <= j < cs.len(),
        cs[j].0 == b,
        forall|k: int| 0 <= k < j ==> (#[trigger] cs[k].0) != b,
    ensures
        find_child(cs, b) == Some(cs[j].1),
{
    lemma_find_child_skip(cs, b, j);
    assert(cs.skip(j).len() > 0);
    assert(cs.skip(j)[0] == cs[j]);
}

/// Replacing one child's subtree leaves searches for other bytes unchanged.
proof fn lemma_find_child_update_other(
    cs: Seq<(u8, PatriciaNode)>,
    i: int,
    c2: PatriciaNode,
    b2: u8,
)
    requires
        0 <= i < cs.len(),
        b2 != cs[i].0,
    ensures
        find_child(cs.update(i, (cs[i].0, c2)), b2) == find_child(cs, b2),
    decreases cs.len(),
{
    let cs2 = cs.update(i, (cs[i].0, c2));
    if i == 0 {
        assert(cs2[0].0 == cs[0].0);
        assert(cs2.drop_first() =~= cs.drop_first());
    } else {
        assert(cs2[0] == cs[0]);
        if cs[0].0 != b2 {
            assert(cs2.drop_first() =~= cs.drop_first().update(
                i - 1,
                (cs.drop_first()[i - 1].0, c2),
            ));
            lemma_find_child_update_other(cs.drop_first(), i - 1, c2, b2);
        }
    }
}

/// Inserting a child for one byte leaves searches for other bytes unchanged.
proof fn lemma_find_child_insert_other(
    cs: Seq<(u8, PatriciaNode)>,
    p: int,
    e: (u8, PatriciaNode),
    b2: u8,
)
    requires
        0 <= p <= cs.len(),
        b2 != e.0,
    ensures
        find_child(cs.insert(p, e), b2) == find_child(cs, b2),
    decreases cs.len(),
{
    let cs2 = cs.insert(p, e);
    if p == 0 {
        assert(cs2[0] == e);
        assert(cs2.drop_first() =~= cs);
    } else {
        assert(cs2[0] == cs[0]);
        if cs[0].0 != b2 {
            assert(cs2.drop_first() =~= cs.drop_first().insert(p - 1, e));
            lemma_find_child_insert_other(cs.drop_first(), p - 1, e, b2);
        }
    }
}

/// A node with no fragment, no value and no children binds no key at any
/// position.
proof fn lemma_blank_node_lookup_at(n: PatriciaNode, k: Seq<u8>, depth: int)
    requires
        n.key_fragment@.len() == 0,
        n.value is None,
        n.children@.len() == 0,
        0 <= depth,
    ensures
        get_spec(n, k, depth) is None,
{
    if depth < k.len() {
        assert(find_child(n.children@, k[depth]) is None);
    }
}

/// Splitting a fragment does not change what the subtree binds: looking up a
/// key below the split child equals looking it up in the unsplit node.
proof fn lemma_split_tail_equiv(n: PatriciaNode, m: PatriciaNode, k: Seq<u8>, depth: int, common: int)
    requires
        0 <= common < n.key_fragment@.len(),
        m.key_fragment@ == n.key_fragment@.subrange(common + 1, n.key_fragment@.len() as int),
        m.value == n.value,
        m.children == n.children,
        0 <= depth,
        k.len() - depth > common,
        k.subrange(depth, depth + common) == n.key_fragment@.subrange(0, common),
        k[depth + common] == n.key_fragment@[common],
    ensures
        get_spec(m, k, depth + common + 1) == get_spec(n, k, depth),
{
    let fa = n.key_fragment@;
    let fm = m.key_fragment@;
    let dm = depth + common + 1;
    assert(fm.len() == fa.len() - common - 1);
    if k.len() - depth < fa.len() {
        assert(fm.len() > k.len() - dm);
        assert(fm.len() > 0);
        assert(get_spec(m, k, dm) is None);
        assert(get_spec(n, k, depth) is None);
    } else if k.subrange(depth, depth + fa.len() as int) != fa {
        assert(exists|q: int| 0 <= q < fa.len() && k[depth + q] != fa[q]) by {
            if forall|q: int| 0 <= q < fa.len() ==> k[depth + q] == #[trigger] fa[q] {
                assert(k.subrange(depth, depth + fa.len() as int) =~= fa);
            }
        }
        let q = choose|q: int| 0 <= q < fa.len() && k[depth + q] != fa[q];
        assert(q > common) by {
            if q < common {
                assert(k.subrange(depth, depth + common)[q] == fa.subrange(0, common)[q]);
            }
        }
        assert(fm.len() > 0);
        assert(k.subrange(dm, dm + fm.len() as int) != fm) by {
            assert(k.subrange(dm, dm + fm.len() as int)[q - common - 1] == k[depth + q]);
            assert(fm[q - common - 1] == fa[q]);
        }
        assert(get_spec(m, k, dm) is None);
        assert(get_spec(n, k, depth) is None);
    } else {
        assert forall|t: int| 0 <= t < fm.len() implies k[dm + t] == #[trigger] fm[t] by {
            assert(k.subrange(depth, depth + fa.len() as int)[common + 1 + t] == fa[common + 1
                + t]);
        }
        if fm.len() > 0 {
            assert(k.subrange(dm, dm + fm.len() as int) =~= fm);
        }
        let cd = depth + fa.len();
        assert(dm + fm.len() == cd);
        if cd == k.len() {
            assert(get_spec(m, k, dm) == get_spec(n, k, depth));
        } else {
            assert(get_spec(m, k, dm) == (match find_child(m.children@, k[cd]) {
                Some(c) => get_spec(c, k, cd + 1),
                None => None,
            }));
            assert(get_spec(n, k, depth) == (match find_child(n.children@, k[cd]) {
                Some(c) => get_spec(c, k, cd + 1),
                None => None,
            }));
        }
    }
}

/// In a well-formed node every child's stored hash is its subtree hash.
proof fn lemma_children_hashes_valid(cs: Seq<(u8, PatriciaNode)>)
    requires
        forall|i: int| 0 <= i < cs.len() ==> node_wf(#[trigger] cs[i].1),
    ensures
        forall|i: int|
            0 <= i < cs.len() ==> (#[trigger] cs[i].1).hash@ == node_hash_spec(cs[i].1),
{
    assert forall|i: int|
        0 <= i < cs.len() implies (#[trigger] cs[i].1).hash@ == node_hash_spec(cs[i].1) by {
        assert(node_wf(cs[i].1));
    }
}

/// Hashes are a congruence: children with pointwise equal hashes produce the
/// same blob.
proof fn lemma_blob_congruence(a: Seq<(u8, PatriciaNode)>, b: Seq<(u8, PatriciaNode)>, i: int)
    requires
        a.len() == b.len(),
        forall|k: int|
            0 <= k < a.len() ==> node_hash_spec(#[trigger] a[k].1) == node_hash_spec(b[k].1),
    ensures
        children_blob(a, i) == children_blob(b, i),
    decreases a.len() - i,
{
    if 0 <= i < a.len() {
        lemma_blob_congruence(a, b, i + 1);
    }
}

/// The fold a verifier applies to a Patricia proof: start from
/// `keccak(key ++ value)` and combine with each decoded sibling on the stated
/// side; a malformed sibling rejects.
pub open spec fn patricia_fold(acc: Seq<u8>, sibs: Seq<Seq<char>>, dirs: Seq<bool>, root: Seq<u8>) -> bool
    recommends
        sibs.len() == dirs.len(),
    decreases sibs.len(),
{
    if sibs.len() == 0 {
        acc == root
    } else {
        let sb = encode_utf8(sibs[0]);
        if !hex_valid(sb) {
            false
        } else {
            let sib = hex_decode_bytes(sb);
            let h = if dirs.len() > 0 && dirs[0] {
                hash_pair_spec(acc, sib)
            } else {
                hash_pair_spec(sib, acc)
            };
            patricia_fold(h, sibs.drop_first(), dirs.drop_first(), root)
        }
    }
}

/// What `_verify_proof` decides.
pub open spec fn patricia_verify_spec(
    key: Seq<u8>,
    value: Seq<u8>,
    proof: (Seq<u8>, Seq<Seq<char>>, Seq<bool>),
    root: Seq<u8>,
) -> bool {
    if proof.1.len() != proof.2.len() {
        false
    } else {
        patricia_fold(keccak_spec(key + value), proof.1, proof.2, root)
    }
}

impl PatriciaNode {
    /// A fresh node with no fragment, no value and no children.
    pub fn new() -> (r: Self)
        ensures
            node_wf(r),
            r.key_fragment@ == Seq::<u8>::empty(),
            r.value is None,
            r.children@ == Seq::<(u8, PatriciaNode)>::empty(),
    {
        let hash = keccak256(&[]);
        let r = PatriciaNode { key_fragment: Vec::new(), value: None, children: Vec::new(), hash };
        proof {
            assert([]@ =~= Seq::<u8>::empty());
            assert(r.key_fragment@ =~= Seq::<u8>::empty());
        }
        r
    }

    /// A fresh childless node carrying `fragment`.
    pub fn new_with_fragment(fragment: Vec<u8>) -> (r: Self)
        ensures
            node_wf(r),
            r.key_fragment@ == fragment@,
            r.value is None,
            r.children@ == Seq::<(u8, PatriciaNode)>::empty(),
    {
        let hash = keccak256(fragment.as_slice());
        PatriciaNode { key_fragment: fragment, value: None, children: Vec::new(), hash }
    }

    /// True when the node has no children.
    pub fn is_leaf(&self) -> (r: bool)
        ensures
            r == (self.children@.len() == 0),
    {
        self.children.len() == 0
    }

    /// Recomputes this node's stored hash from its fields.
    fn refresh_hash(&mut self)
        requires
            forall|i: int|
                0 <= i < old(self).children@.len() ==> (#[trigger] old(self).children@[i].1).hash@
                    == node_hash_spec(old(self).children@[i].1),
        ensures
            final(self).key_fragment == old(self).key_fragment,
            final(self).value == old(self).value,
            final(self).children == old(self).children,
            final(self).hash@ == node_hash_spec(*final(self)),
    {
        if self.children.len() == 0 {
            let h = match &self.value {
                Some(v) => hash_pair(self.key_fragment.as_slice(), v.as_slice()),
                None => hash_data(self.key_fragment.as_slice()),
            };
            self.hash = h;
        } else {
            let mut buf: Vec<u8> = vstd::slice::slice_to_vec(self.key_fragment.as_slice());
            let n = self.children.len();
            let mut i: usize = 0;
            while i < n
                invariant
                    n == self.children@.len(),
                    i <= n,
                    self.key_fragment == old(self).key_fragment,
                    self.value == old(self).value,
                    self.children == old(self).children,
                    forall|k: int|
                        0 <= k < n ==> (#[trigger] self.children@[k].1).hash@ == node_hash_spec(
                            self.children@[k].1,
                        ),
                    buf@ + children_blob(self.children@, i as int) == self.key_fragment@
                        + children_blob(self.children@, 0),
                decreases n - i,
            {
                let child_hash = &self.children[i].1.hash;
                buf.extend_from_slice(child_hash.as_slice());
                i = i + 1;
                proof {
                    assert(buf@ + children_blob(self.children@, i as int) =~= self.key_fragment@
                        + children_blob(self.children@, 0));
                }
            }
            proof {
                assert(children_blob(self.children@, n as int) =~= Seq::<u8>::empty());
                assert(buf@ =~= self.key_fragment@ + children_blob(self.children@, 0));
            }
            let h = keccak256(buf.as_slice());
            self.hash = h;
        }
    }
}

/// Inserts `(b, child)` into a sorted child list that does not yet branch on
/// `b`.
fn insert_child_sorted(children: &mut Vec<(u8, PatriciaNode)>, b: u8, child: PatriciaNode)
    requires
        children_sorted(old(children)@),
        forall|j: int| 0 <= j < old(children)@.len() ==> (#[trigger] old(children)@[j].0) != b,
    ensures
        exists|p: int|
            0 <= p <= old(children)@.len() && final(children)@ == old(children)@.insert(
                p,
                (b, child),
            ),
        children_sorted(final(children)@),
{
    let n = children.len();
    let mut p: usize = 0;
    while p < n && children[p].0 < b
        invariant
            n == children@.len(),
            p <= n,
            children@ == old(children)@,
            forall|j: int| 0 <= j < p ==> (#[trigger] children@[j].0) < b,
        decreases n - p,
    {
        p = p + 1;
    }
    proof {
        if p < n {
            assert(old(children)@[p as int].0 != b);
            assert(old(children)@[p as int].0 > b);
        }
    }
    children.insert(p, (b, child));
    proof {
        let os = old(children)@;
        let cs = final(children)@;
        assert(cs == os.insert(p as int, (b, child)));
        assert forall|i: int, j: int| 0 <= i < j < cs.len() implies (#[trigger] cs[i].0)
            < (#[trigger] cs[j].0) by {
            if i < p {
                assert(cs[i] == os[i]);
            }
            if i > p {
                assert(cs[i] == os[i - 1]);
            }
            if j < p {
                assert(cs[j] == os[j]);
            }
            if j > p {
                assert(cs[j] == os[j - 1]);
                if p < n {
                    assert(j - 1 >= p);
                    if j - 1 > p {
                        assert(os[p as int].0 < os[j - 1].0);
                    }
                }
            }
            if i == p {
                assert(cs[i].0 == b);
            }
            if j == p {
                assert(cs[j].0 == b);
            }
        }
    }
}

/// The length of the longest common prefix of `a` and `b`.
pub open spec fn common_prefix_spec(a: Seq<u8>, b: Seq<u8>) -> int
    decreases a.len(),
{
    if a.len() == 0 || b.len() == 0 || a[0] != b[0] {
        0
    } else {
        1 + common_prefix_spec(a.drop_first(), b.drop_first())
    }
}

/// Any length with the common-prefix properties is the common prefix
/// length.
proof fn lemma_common_prefix_unique(a: Seq<u8>, b: Seq<u8>, r: int)
    requires
        0 <= r <= a.len(),
        r <= b.len(),
        forall|i: int| 0 <= i < r ==> a[i] == b[i],
        r < a.len() && r < b.len() ==> a[r] != b[r],
    ensures
        r == common_prefix_spec(a, b),
    decreases a.len(),
{
    if r == 0 {
    } else {
        assert(a[0] == b[0]);
        assert forall|i: int| 0 <= i < r - 1 implies a.drop_first()[i] == b.drop_first()[i] by {
            assert(a[i + 1] == b[i + 1]);
        }
        if r - 1 < a.drop_first().len() && r - 1 < b.drop_first().len() {
            assert(a.drop_first()[r - 1] == a[r] && b.drop_first()[r - 1] == b[r]);
        }
        lemma_common_prefix_unique(a.drop_first(), b.drop_first(), r - 1);
    }
}

/// Longest common prefix of two byte strings.
pub fn common_prefix_length(a: &[u8], b: &[u8]) -> (r: usize)
    ensures
        r <= a@.len() && r <= b@.len(),
        forall|i: int| 0 <= i < r ==> a@[i] == b@[i],
        r < a@.len() && r < b@.len() ==> a@[r as int] != b@[r as int],
        r == common_prefix_spec(a@, b@),
{
    let mut i: usize = 0;
    while i < a.len() && i < b.len()
        invariant
            i <= a@.len() && i <= b@.len(),
            forall|j: int| 0 <= j < i ==> a@[j] == b@[j],
        decreases a@.len() - i,
    {
        if a[i] != b[i] {
            proof {
                lemma_common_prefix_unique(a@, b@, i as int);
            }
            return i;
        }
        i = i + 1;
    }
    proof {
        lemma_common_prefix_unique(a@, b@, i as int);
    }
    i
}

/// Whether binding a value to `key` from position `depth` of `n` would
/// descend past `MAX_LEVELS`: exactly the inputs on which `insert` raises
/// `InvariantViolated`.
pub open spec fn insert_depth_exceeded(n: PatriciaNode, key: Seq<u8>, depth: int) -> bool
    decreases key.len() - depth,
{
    if depth >= MAX_LEVELS {
        true
    } else if n.key_fragment@.len() == 0 && n.value is None && n.children@.len() == 0 {
        false
    } else {
        let frag = n.key_fragment@;
        let rem = key.subrange(depth, key.len() as int);
        let c = common_prefix_spec(frag, rem);
        if frag.len() > 0 && c == frag.len() && c == rem.len() {
            false
        } else if frag.len() > 0 && c < frag.len() {
            false
        } else {
            let cd = depth + frag.len();
            if cd >= key.len() {
                false
            } else {
                match find_child(n.children@, key[cd]) {
                    Some(ch) => insert_depth_exceeded(ch, key, cd + 1),
                    None => false,
                }
            }
        }
    }
}

/// A node with no fragment, no value and no children binds no key.
proof fn lemma_blank_node_lookups(n: PatriciaNode)
    requires
        n.key_fragment@.len() == 0,
        n.value is None,
        n.children@.len() == 0,
    ensures
        forall|k: Seq<u8>| #[trigger] get_spec(n, k, 0) is None,
{
    assert forall|k: Seq<u8>| #[trigger] get_spec(n, k, 0) is None by {
        if k.len() != 0 {
            assert(find_child(n.children@, k[0]) is None);
        }
    }
}

/// The compressed radix Merkle tree.
pub struct PatriciaMerkleTree {
    root: PatriciaNode,
    key_count: u64,
    max_keys: u64,
}

impl PatriciaMerkleTree {
    /// The number of distinct keys inserted.
    pub closed spec fn key_count_spec(&self) -> u64 {
        self.key_count
    }

    /// The configured key ceiling.
    pub closed spec fn max_keys_spec(&self) -> u64 {
        self.max_keys
    }

    /// The subtree hash of the root node.
    pub closed spec fn root_hash_spec(&self) -> Seq<u8> {
        node_hash_spec(self.root)
    }

    /// The value bound to `key`, if any.
    pub closed spec fn lookup_spec(&self, key: Seq<u8>) -> Option<Seq<u8>> {
        get_spec(self.root, key, 0)
    }

    /// Whether binding a value to `key` would descend past `MAX_LEVELS`.
    pub closed spec fn insert_would_exceed_depth(&self, key: Seq<u8>) -> bool {
        insert_depth_exceeded(self.root, key, 0)
    }

    /// The tree's structural invariant.
    pub closed spec fn well_formed(&self) -> bool {
        node_wf(self.root)
    }

    /// An empty tree with the default key ceiling; no key has a binding.
    pub fn new() -> (r: Self)
        ensures
            r.well_formed(),
            r.key_count_spec() == 0,
            r.max_keys_spec() == MAX_KEYS,
            forall|k: Seq<u8>| #[trigger] r.lookup_spec(k) is None,
    {
        let t = PatriciaMerkleTree { root: PatriciaNode::new(), key_count: 0, max_keys: MAX_KEYS };
        proof {
            lemma_blank_node_lookups(t.root);
        }
        t
    }

    /// An empty tree with a caller-chosen key ceiling; no key has a binding.
    pub fn _new_with_max(max_keys: u64) -> (r: Self)
        ensures
            r.well_formed(),
            r.key_count_spec() == 0,
            r.max_keys_spec() == max_keys,
            forall|k: Seq<u8>| #[trigger] r.lookup_spec(k) is None,
    {
        let t = PatriciaMerkleTree { root: PatriciaNode::new(), key_count: 0, max_keys };
        proof {
            lemma_blank_node_lookups(t.root);
        }
        t
    }

    /// The number of distinct keys inserted so far.
    pub fn num_keys(&self) -> (r: u64)
        ensures
            r == self.key_count_spec(),
    {
        self.key_count
    }

    /// Binds `value` to `key`. Fails with `CapacityExceeded` at the key
    /// ceiling and with `InvariantViolated` when the descent would exceed
    /// `MAX_LEVELS`; an error leaves the root hash and the key count
    /// unchanged. A repeated key overwrites and does not raise the count.
    pub fn insert(&mut self, key: Vec<u8>, value: Vec<u8>) -> (r: Result<(), TreeError>)
        requires
            old(self).well_formed(),
        ensures
            final(self).well_formed(),
            final(self).max_keys_spec() == old(self).max_keys_spec(),
            (r matches Err(e) && e == TreeError::CapacityExceeded) <==> old(self).key_count_spec()
                >= old(self).max_keys_spec(),
            r is Err ==> final(self).key_count_spec() == old(self).key_count_spec()
                && final(self).root_hash_spec() == old(self).root_hash_spec(),
            r matches Ok(_) ==> final(self).key_count_spec() == old(self).key_count_spec() + (
            if old(self).lookup_spec(key@) is Some {
                0int
            } else {
                1int
            }),
            r matches Ok(_) ==> final(self).lookup_spec(key@) == Some(value@),
            r matches Err(e) ==> (e == TreeError::CapacityExceeded || e
                == TreeError::InvariantViolated),
            (r matches Err(e) && e == TreeError::InvariantViolated) <==> (old(
                self,
            ).key_count_spec() < old(self).max_keys_spec() && old(self).insert_would_exceed_depth(
                key@,
            )),
            r matches Ok(_) ==> forall|k2: Seq<u8>|
                #![trigger final(self).lookup_spec(k2)]
                k2 != key@ ==> final(self).lookup_spec(k2) == old(self).lookup_spec(k2),
    {
        if self.key_count >= self.max_keys {
            return Err(TreeError::CapacityExceeded);
        }
        let existed = match Self::insert_recursive(&mut self.root, key.as_slice(), value, 0) {
            Ok(b) => b,
            Err(e) => {
                return Err(e);
            },
        };
        if !existed {
            self.key_count = self.key_count + 1;
        }
        proof {
            assert forall|k2: Seq<u8>| k2 != key@ implies self.lookup_spec(k2) == old(
                self,
            ).lookup_spec(k2) by {
                assert(k2.subrange(0, k2.len() as int) =~= k2);
                assert(key@.subrange(0, key@.len() as int) =~= key@);
                assert(get_spec(self.root, k2, 0) == get_spec(old(self).root, k2, 0));
            }
        }
        Ok(())
    }

    /// The value bound to `key`, if any.
    pub fn get(&self, key: &[u8]) -> (r: Option<Vec<u8>>)
        requires
            self.well_formed(),
        ensures
            r matches Some(v) ==> self.lookup_spec(key@) == Some(v@),
            r is None ==> self.lookup_spec(key@) is None,
    {
        Self::get_recursive(&self.root, key, 0)
    }

    /// The root digest, or `None` while the tree holds no keys.
    pub fn root_hash(&self) -> (r: Option<Vec<u8>>)
        requires
            self.well_formed(),
        ensures
            self.key_count_spec() == 0 ==> r is None,
            self.key_count_spec() > 0 ==> (r matches Some(h) && h@ == self.root_hash_spec()),
    {
        if self.key_count == 0 {
            return None;
        }
        Some(copy_bytes(&self.root.hash))
    }

    #[verifier::rlimit(60)]
    fn insert_recursive(node: &mut PatriciaNode, key: &[u8], value: Vec<u8>, depth: usize) -> (r:
        Result<bool, TreeError>)
        requires
            node_wf(*old(node)),
            depth <= key@.len(),
        ensures
            node_wf(*final(node)),
            r matches Err(e) ==> e == TreeError::InvariantViolated && node_hash_spec(
                *final(node),
            ) == node_hash_spec(*old(node)),
            r is Err <==> insert_depth_exceeded(*old(node), key@, depth as int),
            r matches Ok(existed) ==> (existed <==> get_spec(*old(node), key@, depth as int)
                is Some),
            r matches Ok(_) ==> get_spec(*final(node), key@, depth as int) == Some(value@),
            r matches Ok(_) ==> forall|k2: Seq<u8>|
                #![trigger get_spec(*final(node), k2, depth as int)]
                depth <= k2.len() && k2.subrange(depth as int, k2.len() as int) != key@.subrange(
                    depth as int,
                    key@.len() as int,
                ) ==> get_spec(*final(node), k2, depth as int) == get_spec(
                    *old(node),
                    k2,
                    depth as int,
                ),
        decreases key@.len() - depth,
    {
        if depth >= MAX_LEVELS {
            return Err(TreeError::InvariantViolated);
        }
        let ghost pre = *old(node);
        let frag_len = node.key_fragment.len();
        // A blank node takes the whole remaining key.
        if frag_len == 0 && node.value.is_none() && node.children.len() == 0 {
            let rest = vstd::slice::slice_subrange(key, depth, key.len());
            node.key_fragment = vstd::slice::slice_to_vec(rest);
            node.value = Some(value);
            node.refresh_hash();
            proof {
                let f = node.key_fragment@;
                if f.len() > 0 {
                    assert(key@.subrange(depth as int, depth as int + f.len() as int) =~= f);
                }
                let ks = key@.subrange(depth as int, key@.len() as int);
                assert(f =~= ks);
                assert forall|k2: Seq<u8>|
                    depth <= k2.len() && k2.subrange(depth as int, k2.len() as int)
                    != ks implies get_spec(*node, k2, depth as int) == get_spec(
                    pre,
                    k2,
                    depth as int,
                ) by {
                    lemma_blank_node_lookup_at(pre, k2, depth as int);
                    let s2 = k2.subrange(depth as int, k2.len() as int);
                    if f.len() > 0 {
                        if k2.len() - depth >= f.len() && k2.subrange(
                            depth as int,
                            depth as int + f.len() as int,
                        ) == f {
                            let cd = depth as int + f.len() as int;
                            if cd == k2.len() {
                                assert(s2 =~= f);
                                assert(false);
                            } else {
                                assert(find_child(node.children@, k2[cd]) is None);
                            }
                        }
                    } else {
                        if k2.len() == depth {
                            assert(s2 =~= ks);
                            assert(false);
                        }
                        assert(find_child(node.children@, k2[depth as int]) is None);
                    }
                }
            }
            return Ok(false);
        }
        if frag_len > 0 {
            let remaining = vstd::slice::slice_subrange(key, depth, key.len());
            let common = common_prefix_length(node.key_fragment.as_slice(), remaining);
            if common == frag_len && common == remaining.len() {
                // Exact match: overwrite the value in place.
                let existed = node.value.is_some();
                proof {
                    lemma_children_hashes_valid(node.children@);
                }
                node.value = Some(value);
                node.refresh_hash();
                proof {
                    assert(key@.subrange(depth as int, depth as int + frag_len as int)
                        =~= pre.key_fragment@);
                    let ks = key@.subrange(depth as int, key@.len() as int);
                    let f = pre.key_fragment@;
                    assert(f =~= ks);
                    assert forall|k2: Seq<u8>|
                        depth <= k2.len() && k2.subrange(depth as int, k2.len() as int)
                        != ks implies get_spec(*node, k2, depth as int) == get_spec(
                        pre,
                        k2,
                        depth as int,
                    ) by {
                        if k2.len() - depth >= f.len() && k2.subrange(
                            depth as int,
                            depth as int + f.len() as int,
                        ) == f {
                            let cd = depth as int + f.len() as int;
                            if cd == k2.len() {
                                assert(k2.subrange(depth as int, k2.len() as int) =~= f);
                                assert(false);
                            }
                        }
                    }
                }
                return Ok(existed);
            }
            if common < frag_len {
                // Split: the current node keeps the common prefix; its old
                // fragment tail, value and children move into a child.
                let old_fragment = vstd::slice::slice_to_vec(
                    vstd::slice::slice_subrange(node.key_fragment.as_slice(), common, frag_len),
                );
                let old_value = node.value.take();
                let mut old_children: Vec<(u8, PatriciaNode)> = Vec::new();
                core::mem::swap(&mut old_children, &mut node.children);
                node.key_fragment = vstd::slice::slice_to_vec(
                    vstd::slice::slice_subrange(node.key_fragment.as_slice(), 0, common),
                );
                let mut old_child = PatriciaNode::new_with_fragment(
                    vstd::slice::slice_to_vec(
                        vstd::slice::slice_subrange(old_fragment.as_slice(), 1, old_fragment.len()),
                    ),
                );
                old_child.value = old_value;
                old_child.children = old_children;
                proof {
                    lemma_children_hashes_valid(old_child.children@);
                }
                old_child.refresh_hash();
                proof {
                    assert(children_sorted(old_child.children@));
                    assert(node_wf(old_child));
                }
                let ghost oc = old_child;
                let b_old = old_fragment[0];
                let mut new_children: Vec<(u8, PatriciaNode)> = Vec::new();
                if common == remaining.len() {
                    new_children.push((b_old, old_child));
                    node.children = new_children;
                    node.value = Some(value);
                    proof {
                        assert(forall|k: int|
                            0 <= k < node.children@.len() ==> node_wf(
                                #[trigger] node.children@[k].1,
                            ));
                    }
                } else {
                    let b_new = remaining[common];
                    let mut new_child = PatriciaNode::new_with_fragment(
                        vstd::slice::slice_to_vec(
                            vstd::slice::slice_subrange(remaining, common + 1, remaining.len()),
                        ),
                    );
                    new_child.value = Some(value);
                    new_child.refresh_hash();
                    proof {
                        assert(children_sorted(new_child.children@));
                        assert(node_wf(new_child));
                        assert(b_old != b_new);
                    }
                    if b_old < b_new {
                        new_children.push((b_old, old_child));
                        new_children.push((b_new, new_child));
                    } else {
                        new_children.push((b_new, new_child));
                        new_children.push((b_old, old_child));
                    }
                    node.children = new_children;
                    node.value = None;
                    proof {
                        assert(forall|k: int|
                            0 <= k < node.children@.len() ==> node_wf(
                                #[trigger] node.children@[k].1,
                            ));
                    }
                }
                proof {
                    lemma_children_hashes_valid(node.children@);
                }
                node.refresh_hash();
                proof {
                    if key@.len() - depth >= frag_len && key@.subrange(
                        depth as int,
                        depth as int + frag_len as int,
                    ) == pre.key_fragment@ {
                        assert(pre.key_fragment@[common as int] == key@[depth + common]);
                        assert(false);
                    }
                    let f = node.key_fragment@;
                    assert(f =~= pre.key_fragment@.subrange(0, common as int));
                    assert forall|q: int| 0 <= q < common implies f[q] == key@[depth + q] by {}
                    if f.len() > 0 {
                        assert(key@.subrange(depth as int, depth as int + f.len() as int) =~= f);
                    }
                    let cd = depth as int + common as int;
                    if common == key@.len() - depth {
                        assert(get_spec(*node, key@, depth as int) == Some(value@));
                    } else {
                        let b_new = key@[cd];
                        let cs = node.children@;
                        if cs.len() == 2 {
                            if cs[0].0 == b_new {
                                lemma_find_child_at(cs, b_new, 0);
                            } else {
                                lemma_find_child_at(cs, b_new, 1);
                            }
                        } else {
                            lemma_find_child_at(cs, b_new, 0);
                        }
                        let nc = find_child(cs, b_new).unwrap();
                        assert(nc.key_fragment@ =~= key@.subrange(cd + 1, key@.len() as int));
                        if nc.key_fragment@.len() > 0 {
                            assert(key@.subrange(cd + 1, cd + 1 + nc.key_fragment@.len() as int)
                                =~= nc.key_fragment@);
                        }
                        assert(get_spec(nc, key@, cd + 1) == Some(value@));
                    }
                    let ks = key@.subrange(depth as int, key@.len() as int);
                    let capF = pre.key_fragment@;
                    let capF1 = node.key_fragment@;
                    let cdc = depth as int + common as int;
                    let rem_v = key@.subrange(depth as int, key@.len() as int);
                    assert(capF1 =~= capF.subrange(0, common as int));
                    assert(old_fragment@ =~= capF.subrange(common as int, capF.len() as int));
                    assert(b_old == capF[common as int]);
                    assert(oc.key_fragment@ =~= capF.subrange(common as int + 1, capF.len() as int));
                    assert forall|k2: Seq<u8>|
                        depth <= k2.len() && k2.subrange(depth as int, k2.len() as int)
                        != ks implies get_spec(*node, k2, depth as int) == get_spec(
                        pre,
                        k2,
                        depth as int,
                    ) by {
                        let s2 = k2.subrange(depth as int, k2.len() as int);
                        let s2len = k2.len() - depth;
                        let matched1 = s2len >= common && k2.subrange(depth as int, cdc) == capF1;
                        if !matched1 {
                            // Both reject on the fragment.
                            if s2len >= common && s2len >= capF.len() {
                                assert(exists|q: int|
                                    0 <= q < common && k2[depth + q] != capF1[q]) by {
                                    if forall|q: int|
                                        0 <= q < common ==> k2[depth + q] == #[trigger] capF1[q] {
                                        assert(k2.subrange(depth as int, cdc) =~= capF1);
                                    }
                                }
                                let q = choose|q: int| 0 <= q < common && k2[depth + q] != capF1[q];
                                assert(k2.subrange(
                                    depth as int,
                                    depth as int + capF.len() as int,
                                )[q] == k2[depth + q]);
                                assert(capF[q] == capF1[q]);
                                assert(k2.subrange(depth as int, depth as int + capF.len() as int)
                                    != capF);
                            }
                            assert(get_spec(pre, k2, depth as int) is None);
                            if s2len >= capF1.len() {
                                assert(k2.subrange(depth as int, cdc) != capF1);
                            }
                            assert(capF1.len() == common > 0 || common == 0);
                            if common == 0 {
                                assert(k2.subrange(depth as int, cdc) =~= capF1);
                                assert(false);
                            }
                            assert(get_spec(*node, k2, depth as int) is None);
                        } else {
                            if s2len == common {
                                if common == key@.len() - depth {
                                    assert(rem_v =~= capF1);
                                    assert(s2 =~= k2.subrange(depth as int, cdc));
                                    assert(s2 =~= ks);
                                    assert(false);
                                }
                                assert(node.value is None);
                                assert(s2len < capF.len());
                                assert(get_spec(pre, k2, depth as int) is None);
                                assert(get_spec(*node, k2, depth as int) is None);
                            } else {
                                let b2 = k2[cdc];
                                let cs = node.children@;
                                if b2 == b_old {
                                    if cs.len() == 2 {
                                        if cs[0].0 == b_old {
                                            lemma_find_child_at(cs, b_old, 0);
                                        } else {
                                            lemma_find_child_at(cs, b_old, 1);
                                        }
                                    } else {
                                        lemma_find_child_at(cs, b_old, 0);
                                    }
                                    assert(find_child(cs, b2) == Some(oc));
                                    lemma_split_tail_equiv(pre, oc, k2, depth as int, common as int);
                                    assert(k2.subrange(depth as int, depth as int + capF1.len() as int)
                                        == capF1);
                                    assert(get_spec(*node, k2, depth as int) == get_spec(
                                        oc,
                                        k2,
                                        cdc + 1,
                                    ));
                                } else if common < key@.len() - depth && b2 == key@[cdc] {
                                    // The branch taken by the inserted key.
                                    if cs.len() == 2 {
                                        if cs[0].0 == b2 {
                                            lemma_find_child_at(cs, b2, 0);
                                        } else {
                                            lemma_find_child_at(cs, b2, 1);
                                        }
                                    } else {
                                        assert(false);
                                    }
                                    let nc2 = find_child(cs, b2).unwrap();
                                    assert(nc2.key_fragment@ =~= key@.subrange(
                                        cdc + 1,
                                        key@.len() as int,
                                    ));
                                    assert(nc2.value == Some(value));
                                    assert(nc2.children@.len() == 0);
                                    // The old fragment rejects this byte.
                                    if s2len >= capF.len() {
                                        assert(k2.subrange(
                                            depth as int,
                                            depth as int + capF.len() as int,
                                        )[common as int] == b2);
                                        assert(b2 != capF[common as int]);
                                        assert(k2.subrange(
                                            depth as int,
                                            depth as int + capF.len() as int,
                                        ) != capF);
                                    }
                                    assert(get_spec(pre, k2, depth as int) is None);
                                    let fr = nc2.key_fragment@;
                                    let cd2 = cdc + 1;
                                    if k2.len() - cd2 >= fr.len() && k2.subrange(
                                        cd2,
                                        cd2 + fr.len() as int,
                                    ) == fr {
                                        if cd2 + fr.len() == k2.len() {
                                            assert(s2.len() == ks.len());
                                            assert forall|t: int| 0 <= t < s2.len() implies s2[t]
                                                == ks[t] by {
                                                if t < common {
                                                    assert(k2.subrange(depth as int, cdc)[t]
                                                        == capF1[t]);
                                                } else if t > common {
                                                    assert(k2.subrange(
                                                        cd2,
                                                        cd2 + fr.len() as int,
                                                    )[t - common - 1] == fr[t - common - 1]);
                                                }
                                            }
                                            assert(s2 =~= ks);
                                            assert(false);
                                        } else {
                                            assert(fr.len() == key@.len() - cd2);
                                            assert(k2.len() > cd2 + fr.len());
                                            assert(find_child(
                                                nc2.children@,
                                                k2[cd2 + fr.len() as int],
                                            ) is None);
                                        }
                                    } else {
                                        if fr.len() == 0 {
                                            assert(k2.subrange(cd2, cd2 + fr.len() as int)
                                                =~= fr);
                                            assert(false);
                                        }
                                    }
                                    assert(get_spec(nc2, k2, cd2) is None);
                                    assert(get_spec(*node, k2, depth as int) is None);
                                } else {
                                    // A byte neither child branches on.
                                    assert forall|j: int| 0 <= j < cs.len() implies (
                                    #[trigger] cs[j].0) != b2 by {}
                                    lemma_find_child_skip(cs, b2, cs.len() as int);
                                    assert(cs.skip(cs.len() as int).len() == 0);
                                    assert(find_child(cs, b2) is None);
                                    if s2len >= capF.len() {
                                        assert(k2.subrange(
                                            depth as int,
                                            depth as int + capF.len() as int,
                                        )[common as int] == b2);
                                        assert(k2.subrange(
                                            depth as int,
                                            depth as int + capF.len() as int,
                                        ) != capF);
                                    }
                                    assert(get_spec(pre, k2, depth as int) is None);
                                    assert(get_spec(*node, k2, depth as int) is None);
                                }
                            }
                        }
                    }
                }
                return Ok(false);
            }
            proof {
                assert(key@.subrange(depth as int, depth as int + frag_len as int)
                    =~= pre.key_fragment@);
            }
        }
        let current_depth = depth + frag_len;
        if current_depth >= key.len() {
            let existed = node.value.is_some();
            proof {
                lemma_children_hashes_valid(node.children@);
            }
            node.value = Some(value);
            node.refresh_hash();
            proof {
                assert(get_spec(*node, key@, depth as int) == Some(value@));
                let ks = key@.subrange(depth as int, key@.len() as int);
                let f = pre.key_fragment@;
                assert(f =~= ks);
                assert forall|k2: Seq<u8>|
                    depth <= k2.len() && k2.subrange(depth as int, k2.len() as int)
                    != ks implies get_spec(*node, k2, depth as int) == get_spec(
                    pre,
                    k2,
                    depth as int,
                ) by {
                    if k2.len() - depth >= f.len() && (f.len() == 0 || k2.subrange(
                        depth as int,
                        depth as int + f.len() as int,
                    ) == f) {
                        let cd2 = depth as int + f.len() as int;
                        if cd2 == k2.len() {
                            assert(k2.subrange(depth as int, k2.len() as int) =~= f);
                            assert(false);
                        }
                    }
                }
            }
            return Ok(existed);
        }
        let next_byte = key[current_depth];
        let n = node.children.len();
        let mut i: usize = 0;
        while i < n && node.children[i].0 != next_byte
            invariant
                *node == pre,
                n == node.children@.len(),
                i <= n,
                forall|j: int| 0 <= j < i ==> (#[trigger] node.children@[j].0) != next_byte,
            decreases n - i,
        {
            i = i + 1;
        }
        if i < n {
            proof {
                lemma_find_child_skip(pre.children@, next_byte, i as int);
                assert(pre.children@.skip(i as int).len() > 0);
                assert(pre.children@.skip(i as int)[0] == pre.children@[i as int]);
                assert(pre.children@[i as int].0 == next_byte);
                assert(find_child(pre.children@.skip(i as int), next_byte) == Some(
                    pre.children@.skip(i as int)[0].1,
                ));
                assert(find_child(pre.children@, next_byte) == Some(pre.children@[i as int].1));
            }
            let (b, mut child) = node.children.remove(i);
            let res = Self::insert_recursive(&mut child, key, value, current_depth + 1);
            let is_err = res.is_err();
            let ghost chv = child;
            node.children.insert(i, (b, child));
            proof {
                assert(node.children@ =~= pre.children@.update(i as int, (b, chv)));
            }
            proof {
                assert forall|k: int| 0 <= k < node.children@.len() implies node_wf(
                    #[trigger] node.children@[k].1,
                ) && node.children@[k].0 == pre.children@[k].0 by {
                    if k != i {
                        assert(node.children@[k] == pre.children@[k]);
                    }
                }
                if is_err {
                    lemma_blob_congruence(node.children@, pre.children@, 0);
                }
            }
            match res {
                Ok(existed) => {
                    proof {
                        lemma_children_hashes_valid(node.children@);
                        assert forall|j: int| 0 <= j < i implies (
                        #[trigger] node.children@[j].0) != next_byte by {
                            assert(node.children@[j] == pre.children@[j]);
                        }
                        lemma_find_child_at(node.children@, next_byte, i as int);
                    }
                    node.refresh_hash();
                    proof {
                        assert(get_spec(*node, key@, depth as int) == Some(value@));
                        let ks = key@.subrange(depth as int, key@.len() as int);
                        let f = pre.key_fragment@;
                        let cdp = current_depth as int;
                        assert forall|k2: Seq<u8>|
                            depth <= k2.len() && k2.subrange(depth as int, k2.len() as int)
                            != ks implies get_spec(*node, k2, depth as int) == get_spec(
                            pre,
                            k2,
                            depth as int,
                        ) by {
                            if k2.len() - depth >= f.len() && (f.len() == 0 || k2.subrange(
                                depth as int,
                                depth as int + f.len() as int,
                            ) == f) {
                                let cd2 = depth as int + f.len() as int;
                                if cd2 == k2.len() {
                                    assert(get_spec(*node, k2, depth as int) == get_spec(
                                        pre,
                                        k2,
                                        depth as int,
                                    ));
                                } else {
                                    let b2 = k2[cd2];
                                    assert(cd2 == cdp);
                                    if b2 == next_byte {
                                        assert(k2.subrange(cdp + 1, k2.len() as int)
                                            != key@.subrange(cdp + 1, key@.len() as int)) by {
                                            if k2.subrange(cdp + 1, k2.len() as int)
                                                == key@.subrange(cdp + 1, key@.len() as int) {
                                                assert(cdp + 1 <= k2.len());
                                                assert(cdp + 1 <= key@.len());
                                                assert(k2.subrange(cdp + 1, k2.len() as int).len()
                                                    == k2.len() - (cdp + 1));
                                                assert(key@.subrange(
                                                    cdp + 1,
                                                    key@.len() as int,
                                                ).len() == key@.len() - (cdp + 1));
                                                assert(k2.len() == key@.len());
                                                let s2 = k2.subrange(
                                                    depth as int,
                                                    k2.len() as int,
                                                );
                                                assert(s2.len() == ks.len());
                                                assert forall|t: int|
                                                    0 <= t < s2.len() implies s2[t] == ks[t] by {
                                                    if t < f.len() {
                                                        assert(k2.subrange(
                                                            depth as int,
                                                            depth as int + f.len() as int,
                                                        )[t] == f[t]);
                                                        assert(key@.subrange(
                                                            depth as int,
                                                            depth as int + f.len() as int,
                                                        )[t] == f[t]);
                                                    } else if t == f.len() {
                                                        assert(s2[t] == b2);
                                                        assert(ks[t] == key@[cdp]);
                                                    } else {
                                                        assert(k2.subrange(
                                                            cdp + 1,
                                                            k2.len() as int,
                                                        )[t - f.len() - 1] == key@.subrange(
                                                            cdp + 1,
                                                            key@.len() as int,
                                                        )[t - f.len() - 1]);
                                                    }
                                                }
                                                assert(s2 =~= ks);
                                                assert(false);
                                            }
                                        }
                                        assert(get_spec(chv, k2, cdp + 1) == get_spec(
                                            pre.children@[i as int].1,
                                            k2,
                                            cdp + 1,
                                        ));
                                        assert(find_child(node.children@, b2) == Some(chv));
                                        assert(find_child(pre.children@, b2) == Some(
                                            pre.children@[i as int].1,
                                        ));
                                    } else {
                                        lemma_find_child_update_other(
                                            pre.children@,
                                            i as int,
                                            chv,
                                            b2,
                                        );
                                        assert(node.children@ == pre.children@.update(
                                            i as int,
                                            (pre.children@[i as int].0, chv),
                                        ));
                                    }
                                }
                            }
                        }
                    }
                    Ok(existed)
                },
                Err(e) => Err(e),
            }
        } else {
            proof {
                lemma_find_child_skip(pre.children@, next_byte, n as int);
                assert(pre.children@.skip(n as int).len() == 0);
            }
            let mut new_child = PatriciaNode::new_with_fragment(
                vstd::slice::slice_to_vec(
                    vstd::slice::slice_subrange(key, current_depth + 1, key.len()),
                ),
            );
            new_child.value = Some(value);
            new_child.refresh_hash();
            proof {
                lemma_find_child_skip(pre.children@, next_byte, n as int);
            }
            insert_child_sorted(&mut node.children, next_byte, new_child);
            proof {
                let p = choose|p: int|
                    0 <= p <= pre.children@.len() && node.children@ == pre.children@.insert(
                        p,
                        (next_byte, new_child),
                    );
                assert forall|k: int| 0 <= k < node.children@.len() implies node_wf(
                    #[trigger] node.children@[k].1,
                ) by {
                    if k < p {
                        assert(node.children@[k] == pre.children@[k]);
                    } else if k > p {
                        assert(node.children@[k] == pre.children@[k - 1]);
                    }
                }
                assert forall|k: int| 0 <= k < p implies (#[trigger] node.children@[k].0)
                    != next_byte by {
                    assert(node.children@[k] == pre.children@[k]);
                }
                lemma_find_child_at(node.children@, next_byte, p);
                assert(new_child.key_fragment@ =~= key@.subrange(
                    current_depth as int + 1,
                    key@.len() as int,
                ));
                if new_child.key_fragment@.len() > 0 {
                    assert(key@.subrange(
                        current_depth as int + 1,
                        current_depth as int + 1 + new_child.key_fragment@.len() as int,
                    ) =~= new_child.key_fragment@);
                }
                assert(get_spec(new_child, key@, current_depth as int + 1) == Some(value@));
            }
            node.refresh_hash();
            proof {
                let p = choose|p: int|
                    0 <= p <= pre.children@.len() && node.children@ == pre.children@.insert(
                        p,
                        (next_byte, new_child),
                    );
                let ks = key@.subrange(depth as int, key@.len() as int);
                let f = pre.key_fragment@;
                let cdp = current_depth as int;
                assert forall|k2: Seq<u8>|
                    depth <= k2.len() && k2.subrange(depth as int, k2.len() as int)
                    != ks implies get_spec(*node, k2, depth as int) == get_spec(
                    pre,
                    k2,
                    depth as int,
                ) by {
                    if k2.len() - depth >= f.len() && (f.len() == 0 || k2.subrange(
                        depth as int,
                        depth as int + f.len() as int,
                    ) == f) {
                        let cd2 = depth as int + f.len() as int;
                        if cd2 == k2.len() {
                            assert(get_spec(*node, k2, depth as int) == get_spec(
                                pre,
                                k2,
                                depth as int,
                            ));
                        } else {
                            let b2 = k2[cd2];
                            if b2 == next_byte {
                                assert(find_child(pre.children@, b2) is None);
                                assert(get_spec(pre, k2, depth as int) is None);
                                assert forall|j: int| 0 <= j < p implies (
                                #[trigger] node.children@[j].0) != b2 by {
                                    assert(node.children@[j] == pre.children@[j]);
                                }
                                lemma_find_child_at(node.children@, b2, p);
                                assert(node.children@[p].1 == new_child);
                                let fr = new_child.key_fragment@;
                                let cd3 = cd2 + 1;
                                assert(fr =~= key@.subrange(cd3, key@.len() as int));
                                if k2.len() - cd3 >= fr.len() && k2.subrange(
                                    cd3,
                                    cd3 + fr.len() as int,
                                ) == fr {
                                    if cd3 + fr.len() == k2.len() {
                                        let s2 = k2.subrange(depth as int, k2.len() as int);
                                        assert(s2.len() == ks.len());
                                        assert forall|t: int| 0 <= t < s2.len() implies s2[t]
                                            == ks[t] by {
                                            if t < f.len() {
                                                assert(k2.subrange(
                                                    depth as int,
                                                    depth as int + f.len() as int,
                                                )[t] == f[t]);
                                                assert(key@.subrange(
                                                    depth as int,
                                                    depth as int + f.len() as int,
                                                )[t] == f[t]);
                                            } else if t > f.len() {
                                                assert(k2.subrange(
                                                    cd3,
                                                    cd3 + fr.len() as int,
                                                )[t - f.len() - 1] == fr[t - f.len() - 1]);
                                            }
                                        }
                                        assert(s2 =~= ks);
                                        assert(false);
                                    } else {
                                        assert(find_child(
                                            new_child.children@,
                                            k2[cd3 + fr.len() as int],
                                        ) is None);
                                    }
                                } else {
                                    if fr.len() == 0 {
                                        assert(k2.subrange(cd3, cd3 + fr.len() as int) =~= fr);
                                        assert(false);
                                    }
                                }
                                assert(get_spec(new_child, k2, cd3) is None);
                                assert(get_spec(*node, k2, depth as int) is None);
                            } else {
                                lemma_find_child_insert_other(
                                    pre.children@,
                                    p,
                                    (next_byte, new_child),
                                    b2,
                                );
                            }
                        }
                    }
                }
            }
            Ok(false)
        }
    }

    /// A membership proof for `key`, or `None` when the key is absent. The
    /// proof pairs each sibling hash with the side it lies on.
    pub fn get_proof(&self, key: &[u8]) -> (r: Option<PatriciaProof>)
        requires
            self.well_formed(),
        ensures
            r is Some <==> self.lookup_spec(key@) is Some,
            r matches Some(p) ==> p.siblings@.len() == p.directions@.len(),
            r matches Some(p) ==> (key@.len() > 0 ==> p.path@.len() > 0),
    {
        let mut siblings: Vec<String> = Vec::new();
        let mut directions: Vec<bool> = Vec::new();
        let mut path: Vec<u8> = Vec::new();
        if Self::get_proof_recursive(&self.root, key, 0, &mut siblings, &mut directions, &mut path)
        {
            Some(PatriciaProof { path, siblings, directions })
        } else {
            None
        }
    }

    /// Folds `keccak(key ++ value)` with each decoded sibling on its stated
    /// side and accepts exactly when the fold reproduces `root_hash`. A
    /// length mismatch or malformed hex rejects.
    pub fn _verify_proof(
        &self,
        key: &[u8],
        value: &[u8],
        proof: &PatriciaProof,
        root_hash: &[u8],
    ) -> (r: bool)
        ensures
            r == patricia_verify_spec(key@, value@, proof@, root_hash@),
    {
        if proof.siblings.len() != proof.directions.len() {
            return false;
        }
        let mut current_hash = hash_pair(key, value);
        let n = proof.siblings.len();
        let mut j: usize = 0;
        proof {
            assert(proof@.1.skip(0) =~= proof@.1);
            assert(proof@.2.skip(0) =~= proof@.2);
        }
        while j < n
            invariant
                n == proof.siblings@.len(),
                n == proof.directions@.len(),
                j <= n,
                patricia_verify_spec(key@, value@, proof@, root_hash@) == patricia_fold(
                    current_hash@,
                    proof@.1.skip(j as int),
                    proof@.2.skip(j as int),
                    root_hash@,
                ),
            decreases n - j,
        {
            proof {
                assert(proof@.1.skip(j as int)[0] == proof@.1[j as int]);
                assert(proof@.1.skip(j as int).drop_first() =~= proof@.1.skip(j as int + 1));
                assert(proof@.2.skip(j as int)[0] == proof@.2[j as int]);
                assert(proof@.2.skip(j as int).drop_first() =~= proof@.2.skip(j as int + 1));
            }
            let sibling = match decode_hex(proof.siblings[j].as_str()) {
                Some(bytes) => bytes,
                None => {
                    return false;
                },
            };
            let next_hash = if proof.directions[j] {
                hash_pair(current_hash.as_slice(), sibling.as_slice())
            } else {
                hash_pair(sibling.as_slice(), current_hash.as_slice())
            };
            current_hash = next_hash;
            j = j + 1;
        }
        proof {
            assert(proof@.1.skip(n as int) =~= Seq::<Seq<char>>::empty());
        }
        bytes_eq(current_hash.as_slice(), root_hash)
    }

    fn get_proof_recursive(
        node: &PatriciaNode,
        key: &[u8],
        depth: usize,
        siblings: &mut Vec<String>,
        directions: &mut Vec<bool>,
        path: &mut Vec<u8>,
    ) -> (r: bool)
        requires
            node_wf(*node),
            depth <= key@.len(),
            old(siblings)@.len() == old(directions)@.len(),
        ensures
            r <==> get_spec(*node, key@, depth as int) is Some,
            final(siblings)@.len() == final(directions)@.len(),
            final(path)@.len() >= old(path)@.len(),
            r && depth < key@.len() ==> final(path)@.len() > old(path)@.len(),
        decreases key@.len() - depth,
    {
        let klen = key.len();
        let frag_len = node.key_fragment.len();
        path.extend_from_slice(node.key_fragment.as_slice());
        let ghost plen = path@.len();
        if frag_len > 0 {
            if klen - depth < frag_len {
                return false;
            }
            let mut i: usize = 0;
            while i < frag_len
                invariant
                    klen == key@.len(),
                    frag_len == node.key_fragment@.len(),
                    depth + frag_len <= klen,
                    i <= frag_len,
                    siblings@.len() == directions@.len(),
                    path@.len() == plen,
                    plen >= old(path)@.len(),
                    forall|j: int|
                        0 <= j < i ==> key@[depth + j] == #[trigger] node.key_fragment@[j],
                decreases frag_len - i,
            {
                if key[depth + i] != node.key_fragment[i] {
                    proof {
                        assert(key@.subrange(depth as int, depth as int + frag_len as int)[i as int]
                            != node.key_fragment@[i as int]);
                    }
                    return false;
                }
                i = i + 1;
            }
            proof {
                assert(key@.subrange(depth as int, depth as int + frag_len as int)
                    =~= node.key_fragment@);
            }
        }
        let current_depth = depth + frag_len;
        if current_depth == klen {
            return node.value.is_some();
        }
        let next_byte = key[current_depth];
        path.push(next_byte);
        let n = node.children.len();
        let mut i: usize = 0;
        while i < n
            invariant
                siblings@.len() == directions@.len(),
                klen == key@.len(),
                current_depth < klen,
                depth <= current_depth,
                current_depth == depth + node.key_fragment@.len(),
                path@.len() == plen + 1,
                plen >= old(path)@.len(),
                node.key_fragment@.len() > 0 ==> key@.subrange(
                    depth as int,
                    current_depth as int,
                ) == node.key_fragment@,
                n == node.children@.len(),
                i <= n,
                node_wf(*node),
                next_byte == key@[current_depth as int],
                forall|j: int| 0 <= j < i ==> (#[trigger] node.children@[j].0) != next_byte,
            decreases n - i,
        {
            if node.children[i].0 == next_byte {
                proof {
                    lemma_find_child_skip(node.children@, next_byte, i as int);
                    assert(node.children@.skip(i as int).len() > 0);
                    assert(node.children@.skip(i as int)[0] == node.children@[i as int]);
                    assert(find_child(node.children@, next_byte) == Some(
                        node.children@[i as int].1,
                    ));
                }
                let mut k: usize = 0;
                while k < n
                    invariant
                        n == node.children@.len(),
                        k <= n,
                        siblings@.len() == directions@.len(),
                        path@.len() == plen + 1,
                        plen >= old(path)@.len(),
                    decreases n - k,
                {
                    if k != i {
                        siblings.push(encode_hex(node.children[k].1.hash.as_slice()));
                        directions.push(node.children[k].0 > next_byte);
                    }
                    k = k + 1;
                }
                return Self::get_proof_recursive(
                    &node.children[i].1,
                    key,
                    current_depth + 1,
                    siblings,
                    directions,
                    path,
                );
            }
            i = i + 1;
        }
        proof {
            lemma_find_child_skip(node.children@, next_byte, n as int);
            assert(node.children@.skip(n as int).len() == 0);
        }
        false
    }

    fn get_recursive(node: &PatriciaNode, key: &[u8], depth: usize) -> (r: Option<Vec<u8>>)
        requires
            node_wf(*node),
            depth <= key@.len(),
        ensures
            r matches Some(v) ==> get_spec(*node, key@, depth as int) == Some(v@),
            r is None ==> get_spec(*node, key@, depth as int) is None,
        decreases key@.len() - depth,
    {
        let klen = key.len();
        let frag_len = node.key_fragment.len();
        if frag_len > 0 {
            if klen - depth < frag_len {
                return None;
            }
            let mut i: usize = 0;
            while i < frag_len
                invariant
                    klen == key@.len(),
                    frag_len == node.key_fragment@.len(),
                    depth + frag_len <= klen,
                    i <= frag_len,
                    forall|j: int|
                        0 <= j < i ==> key@[depth + j] == #[trigger] node.key_fragment@[j],
                decreases frag_len - i,
            {
                if key[depth + i] != node.key_fragment[i] {
                    proof {
                        assert(key@.subrange(depth as int, depth as int + frag_len as int)[i as int]
                            != node.key_fragment@[i as int]);
                    }
                    return None;
                }
                i = i + 1;
            }
            proof {
                assert(key@.subrange(depth as int, depth as int + frag_len as int)
                    =~= node.key_fragment@);
            }
        }
        let current_depth = depth + frag_len;
        if current_depth == klen {
            return match &node.value {
                Some(v) => Some(copy_bytes(v)),
                None => None,
            };
        }
        let next_byte = key[current_depth];
        let n = node.children.len();
        let mut i: usize = 0;
        while i < n
            invariant
                klen == key@.len(),
                current_depth < klen,
                depth <= current_depth,
                current_depth == depth + node.key_fragment@.len(),
                node.key_fragment@.len() > 0 ==> key@.subrange(
                    depth as int,
                    current_depth as int,
                ) == node.key_fragment@,
                n == node.children@.len(),
                i <= n,
                node_wf(*node),
                next_byte == key@[current_depth as int],
                forall|j: int| 0 <= j < i ==> (#[trigger] node.children@[j].0) != next_byte,
            decreases n - i,
        {
            if node.children[i].0 == next_byte {
                proof {
                    lemma_find_child_skip(node.children@, next_byte, i as int);
                    assert(node.children@.skip(i as int).len() > 0);
                    assert(node.children@.skip(i as int)[0] == node.children@[i as int]);
                    assert(find_child(node.children@, next_byte) == Some(
                        node.children@[i as int].1,
                    ));
                }
                return Self::get_recursive(&node.children[i].1, key, current_depth + 1);
            }
            i = i + 1;
        }
        proof {
            lemma_find_child_skip(node.children@, next_byte, n as int);
            assert(node.children@.skip(n as int).len() == 0);
        }
        None
    }
}

} // verus!
