//! On-disk encodings and key schemas of the node store.
//!
//! The leaves database keys each leaf by its index as eight big-endian
//! bytes. The cache database holds two disjoint key schemas: whole pyramid
//! levels under the textual key `level_<n>`, serialized as a length-prefixed
//! list of hashes (a little-endian `u64` count, then each hash as a
//! little-endian `u64` length and its bytes), and single sparse-tree nodes
//! under `<ll>:<index as 16 hex digits>` with a two-digit level. The metadata
//! database holds small named slots.

use vstd::prelude::*;

use crate::hexstr::hex_char_of;

verus! {

use vstd::bytes::{spec_u64_from_le_bytes, spec_u64_to_le_bytes, lemma_auto_spec_u64_to_from_le_bytes};

/// The little-endian bytes of a `u64`.
pub open spec fn u64_le_spec(x: u64) -> Seq<u8> {
    spec_u64_to_le_bytes(x)
}

/// The big-endian bytes of a `u64`: the little-endian bytes reversed.
pub open spec fn u64_be_spec(x: u64) -> Seq<u8> {
    spec_u64_to_le_bytes(x).reverse()
}

/// The little-endian bytes of `x`.
pub fn u64_le(x: u64) -> (r: Vec<u8>)
    ensures
        r@ == u64_le_spec(x),
        r@.len() == 8,
{
    proof {
        lemma_auto_spec_u64_to_from_le_bytes();
    }
    vstd::bytes::u64_to_le_bytes(x)
}

/// The big-endian bytes of `x`.
pub fn u64_be(x: u64) -> (r: Vec<u8>)
    ensures
        r@ == u64_be_spec(x),
        r@.len() == 8,
{
    let le = u64_le(x);
    let mut out: Vec<u8> = Vec::new();
    let mut i: usize = 0;
    while i < 8
        invariant
            le@.len() == 8,
            le@ == u64_le_spec(x),
            i <= 8,
            out@.len() == i,
            forall|j: int| 0 <= j < i ==> out@[j] == le@[7 - j],
        decreases 8 - i,
    {
        out.push(le[7 - i]);
        i = i + 1;
    }
    proof {
        assert(out@ =~= u64_le_spec(x).reverse());
    }
    out
}

/// Distinct numbers have distinct little-endian bytes.
pub proof fn lemma_u64_le_injective(a: u64, b: u64)
    requires
        u64_le_spec(a) == u64_le_spec(b),
    ensures
        a == b,
{
    lemma_auto_spec_u64_to_from_le_bytes();
    assert(spec_u64_from_le_bytes(spec_u64_to_le_bytes(a)) == a);
    assert(spec_u64_from_le_bytes(spec_u64_to_le_bytes(b)) == b);
}

/// Distinct numbers have distinct big-endian bytes.
pub proof fn lemma_u64_be_injective(a: u64, b: u64)
    requires
        u64_be_spec(a) == u64_be_spec(b),
    ensures
        a == b,
{
    assert(u64_be_spec(a).reverse() =~= u64_le_spec(a));
    assert(u64_be_spec(b).reverse() =~= u64_le_spec(b));
    lemma_u64_le_injective(a, b);
}

/// The serialized form of a hash list: a count, then each element with its
/// own length prefix.
pub open spec fn enc_hashes_spec(hashes: Seq<Seq<u8>>) -> Seq<u8> {
    u64_le_spec(hashes.len() as u64) + enc_items_spec(hashes, 0)
}

/// The serialized elements `hashes[i ..]`.
pub open spec fn enc_items_spec(hashes: Seq<Seq<u8>>, i: int) -> Seq<u8>
    decreases hashes.len() - i,
{
    if i < 0 || i >= hashes.len() {
        Seq::empty()
    } else {
        u64_le_spec(hashes[i].len() as u64) + hashes[i] + enc_items_spec(hashes, i + 1)
    }
}

/// Serializes a list of hashes.
pub fn encode_hashes(hashes: &Vec<Vec<u8>>) -> (r: Vec<u8>)
    ensures
        r@ == enc_hashes_spec(crate::merkle_tree::level_view(hashes@)),
{
    let ghost hv = crate::merkle_tree::level_view(hashes@);
    let n = hashes.len();
    let mut out = u64_le(n as u64);
    let mut i: usize = 0;
    proof {
        assert(hv.len() as u64 == n as u64);
    }
    while i < n
        invariant
            hv == crate::merkle_tree::level_view(hashes@),
            n == hashes@.len(),
            i <= n,
            out@ + enc_items_spec(hv, i as int) == enc_hashes_spec(hv),
        decreases n - i,
    {
        let item = &hashes[i];
        let mut len_bytes = u64_le(item.len() as u64);
        out.append(&mut len_bytes);
        out.extend_from_slice(item.as_slice());
        i = i + 1;
        proof {
            assert(hv[i - 1] == hashes@[i - 1]@);
            assert(out@ + enc_items_spec(hv, i as int) =~= enc_hashes_spec(hv));
        }
    }
    proof {
        assert(enc_items_spec(hv, n as int) =~= Seq::<u8>::empty());
        assert(out@ =~= enc_hashes_spec(hv));
    }
    out
}

/// Equal encodings come from equal lists.
pub proof fn lemma_enc_hashes_injective(a: Seq<Seq<u8>>, b: Seq<Seq<u8>>)
    requires
        enc_hashes_spec(a) == enc_hashes_spec(b),
        a.len() < 4294967296,
        b.len() < 4294967296,
        forall|i: int| 0 <= i < a.len() ==> (#[trigger] a[i]).len() < 4294967296,
        forall|i: int| 0 <= i < b.len() ==> (#[trigger] b[i]).len() < 4294967296,
    ensures
        a == b,
{
    lemma_auto_spec_u64_to_from_le_bytes();
    let ea = enc_hashes_spec(a);
    let eb = enc_hashes_spec(b);
    assert(ea.subrange(0, 8) =~= u64_le_spec(a.len() as u64));
    assert(eb.subrange(0, 8) =~= u64_le_spec(b.len() as u64));
    lemma_u64_le_injective(a.len() as u64, b.len() as u64);
    assert(a.len() == b.len());
    assert(ea.skip(8) =~= enc_items_spec(a, 0));
    assert(eb.skip(8) =~= enc_items_spec(b, 0));
    lemma_enc_items_injective(a, b, 0);
    assert(a =~= b);
}

proof fn lemma_enc_items_injective(a: Seq<Seq<u8>>, b: Seq<Seq<u8>>, i: int)
    requires
        0 <= i,
        a.len() == b.len(),
        enc_items_spec(a, i) == enc_items_spec(b, i),
        forall|k: int| 0 <= k < a.len() ==> (#[trigger] a[k]).len() < 4294967296,
        forall|k: int| 0 <= k < b.len() ==> (#[trigger] b[k]).len() < 4294967296,
    ensures
        forall|k: int| i <= k < a.len() ==> #[trigger] a[k] == b[k],
    decreases a.len() - i,
{
    if 0 <= i < a.len() {
        lemma_auto_spec_u64_to_from_le_bytes();
        let ea = enc_items_spec(a, i);
        let la = a[i].len() as u64;
        let lb = b[i].len() as u64;
        assert(ea.subrange(0, 8) =~= u64_le_spec(la));
        assert(enc_items_spec(b, i).subrange(0, 8) =~= u64_le_spec(lb));
        lemma_u64_le_injective(la, lb);
        assert(a[i].len() == b[i].len());
        let w = a[i].len() as int;
        assert(ea.subrange(8, 8 + w) =~= a[i]);
        assert(enc_items_spec(b, i).subrange(8, 8 + w) =~= b[i]);
        assert(a[i] == b[i]);
        assert(ea.skip(8 + w) =~= enc_items_spec(a, i + 1));
        assert(enc_items_spec(b, i).skip(8 + w) =~= enc_items_spec(b, i + 1));
        lemma_enc_items_injective(a, b, i + 1);
        assert forall|k: int| i <= k < a.len() implies #[trigger] a[k] == b[k] by {
            if k > i {
            }
        }
    }
}

/// Deserializes a hash list; a well-formed encoding round-trips, and any
/// successful parse is the exact encoding of its result.
pub fn decode_hashes(data: &[u8]) -> (r: Option<Vec<Vec<u8>>>)
    ensures
        r matches Some(v) ==> v@.len() < 4294967296 && (forall|i: int|
            0 <= i < v@.len() ==> (#[trigger] v@[i]@).len() < 4294967296) && data@
            == enc_hashes_spec(crate::merkle_tree::level_view(v@)),
{
    if data.len() < 8 {
        return None;
    }
    let header = vstd::slice::slice_subrange(data, 0, 8);
    proof {
        lemma_auto_spec_u64_to_from_le_bytes();
    }
    let count = vstd::bytes::u64_from_le_bytes(header);
    if count >= 4294967296 {
        return None;
    }
    let n = count as usize;
    let mut out: Vec<Vec<u8>> = Vec::new();
    let mut off: usize = 8;
    let mut k: usize = 0;
    proof {
        assert(data@.subrange(0, 8) == u64_le_spec(count)) by {
            lemma_auto_spec_u64_to_from_le_bytes();
            assert(header@ =~= data@.subrange(0, 8));
        }
        assert(enc_items_spec(crate::merkle_tree::level_view(out@), 0) =~= Seq::<u8>::empty());
    }
    while k < n
        invariant
            n == count,
            count < 4294967296,
            8 <= off <= data@.len(),
            k <= n,
            out@.len() == k,
            forall|i: int| 0 <= i < out@.len() ==> (#[trigger] out@[i]@).len() < 4294967296,
            data@.subrange(0, off as int) == u64_le_spec(count) + enc_items_spec(
                crate::merkle_tree::level_view(out@),
                0,
            ),
        decreases n - k,
    {
        if data.len() - off < 8 {
            return None;
        }
        let lh = vstd::slice::slice_subrange(data, off, off + 8);
        proof {
            lemma_auto_spec_u64_to_from_le_bytes();
        }
        let len64 = vstd::bytes::u64_from_le_bytes(lh);
        if len64 >= 4294967296 {
            return None;
        }
        let len = len64 as usize;
        if data.len() - (off + 8) < len {
            return None;
        }
        let item = vstd::slice::slice_to_vec(
            vstd::slice::slice_subrange(data, off + 8, off + 8 + len),
        );
        let ghost pre = crate::merkle_tree::level_view(out@);
        let ghost off0 = off as int;
        out.push(item);
        proof {
            assert(lh@ =~= data@.subrange(off0, off0 + 8));
            lemma_auto_spec_u64_to_from_le_bytes();
            assert(data@.subrange(off0, off0 + 8) == u64_le_spec(len64));
        }
        off = off + 8 + len;
        k = k + 1;
        proof {
            let cur = crate::merkle_tree::level_view(out@);
            lemma_enc_items_snoc(cur);
            assert(cur.drop_last() =~= pre);
            assert(cur.last() == out@.last()@);
            assert(out@.last()@ == data@.subrange(off0 + 8, off0 + 8 + len as int));
            assert(data@.subrange(0, off as int) =~= data@.subrange(0, off0) + data@.subrange(
                off0,
                off0 + 8,
            ) + data@.subrange(off0 + 8, off0 + 8 + len as int));
            assert(u64_le_spec(count) + enc_items_spec(cur, 0) =~= (u64_le_spec(count)
                + enc_items_spec(pre, 0)) + u64_le_spec(len64) + out@.last()@);
            assert(data@.subrange(0, off as int) =~= u64_le_spec(count) + enc_items_spec(cur, 0));
        }
    }
    if off != data.len() {
        return None;
    }
    proof {
        let cur = crate::merkle_tree::level_view(out@);
        assert(cur.len() == count);
        assert(data@.subrange(0, data@.len() as int) =~= data@);
        assert(data@ == u64_le_spec(cur.len() as u64) + enc_items_spec(cur, 0));
    }
    Some(out)
}

/// Appending one element extends the serialized items at the end.
proof fn lemma_enc_items_snoc(hashes: Seq<Seq<u8>>)
    requires
        hashes.len() >= 1,
    ensures
        enc_items_spec(hashes, 0) == enc_items_spec(hashes.drop_last(), 0) + u64_le_spec(
            hashes.last().len() as u64,
        ) + hashes.last(),
    decreases hashes.len(),
{
    lemma_enc_items_snoc_from(hashes, 0);
}

proof fn lemma_enc_items_snoc_from(hashes: Seq<Seq<u8>>, i: int)
    requires
        hashes.len() >= 1,
        0 <= i <= hashes.len() - 1,
    ensures
        enc_items_spec(hashes, i) == enc_items_spec(hashes.drop_last(), i) + u64_le_spec(
            hashes.last().len() as u64,
        ) + hashes.last(),
    decreases hashes.len() - i,
{
    if i == hashes.len() - 1 {
        assert(enc_items_spec(hashes.drop_last(), i) =~= Seq::<u8>::empty());
        assert(enc_items_spec(hashes, i + 1) =~= Seq::<u8>::empty());
        assert(enc_items_spec(hashes, i) =~= enc_items_spec(hashes.drop_last(), i) + u64_le_spec(
            hashes.last().len() as u64,
        ) + hashes.last());
    } else {
        lemma_enc_items_snoc_from(hashes, i + 1);
        assert(hashes.drop_last()[i] == hashes[i]);
        assert(enc_items_spec(hashes, i) =~= enc_items_spec(hashes.drop_last(), i) + u64_le_spec(
            hashes.last().len() as u64,
        ) + hashes.last());
    }
}

/// The serialized form of the metadata slot: leaf count, then ceiling.
pub open spec fn enc_meta_spec(num_leaves: u64, max_leaves: u64) -> Seq<u8> {
    u64_le_spec(num_leaves) + u64_le_spec(max_leaves)
}

/// Serializes the metadata slot.
pub fn encode_meta(num_leaves: u64, max_leaves: u64) -> (r: Vec<u8>)
    ensures
        r@ == enc_meta_spec(num_leaves, max_leaves),
{
    let mut out = u64_le(num_leaves);
    let mut tail = u64_le(max_leaves);
    out.append(&mut tail);
    out
}

/// Deserializes the metadata slot; exactly the 16-byte encodings parse.
pub fn decode_meta(data: &[u8]) -> (r: Option<(u64, u64)>)
    ensures
        r matches Some(p) ==> data@ == enc_meta_spec(p.0, p.1),
        forall|n: u64, m: u64| data@ == enc_meta_spec(n, m) ==> r == Some((n, m)),
{
    if data.len() != 16 {
        proof {
            assert forall|n: u64, m: u64| data@ != enc_meta_spec(n, m) by {
                lemma_auto_spec_u64_to_from_le_bytes();
                assert(enc_meta_spec(n, m).len() == 16);
            }
        }
        return None;
    }
    proof {
        lemma_auto_spec_u64_to_from_le_bytes();
    }
    let a = vstd::bytes::u64_from_le_bytes(vstd::slice::slice_subrange(data, 0, 8));
    let b = vstd::bytes::u64_from_le_bytes(vstd::slice::slice_subrange(data, 8, 16));
    proof {
        lemma_auto_spec_u64_to_from_le_bytes();
        assert(data@ =~= data@.subrange(0, 8) + data@.subrange(8, 16));
        assert forall|n: u64, m: u64| data@ == enc_meta_spec(n, m) implies a == n && b == m by {
            assert(enc_meta_spec(n, m).subrange(0, 8) =~= u64_le_spec(n));
            assert(enc_meta_spec(n, m).subrange(8, 16) =~= u64_le_spec(m));
            lemma_u64_le_injective(a, n);
            lemma_u64_le_injective(b, m);
        }
    }
    Some((a, b))
}

/// The decimal digits of `n`, most significant first.
pub open spec fn dec_digits_spec(n: int) -> Seq<u8>
    recommends
        n >= 0,
    decreases n,
{
    if n <= 9 {
        seq![(48 + if n >= 0 {
            n
        } else {
            0
        }) as u8]
    } else {
        dec_digits_spec(n / 10).push((48 + n % 10) as u8)
    }
}

/// The key of a cached pyramid level: the ASCII of `level_<n>`.
pub open spec fn level_key_spec(level: int) -> Seq<u8> {
    seq![108u8, 101u8, 118u8, 101u8, 108u8, 95u8] + dec_digits_spec(level)
}

/// The decimal digits of `level`, appended to a buffer.
fn push_decimal(out: &mut Vec<u8>, n: u64)
    ensures
        final(out)@ == old(out)@ + dec_digits_spec(n as int),
    decreases n,
{
    if n <= 9 {
        out.push(48 + (n as u8));
        proof {
            assert(final(out)@ =~= old(out)@ + dec_digits_spec(n as int));
        }
    } else {
        push_decimal(out, n / 10);
        out.push(48 + ((n % 10) as u8));
        proof {
            assert(final(out)@ =~= old(out)@ + dec_digits_spec(n as int));
        }
    }
}

/// The `level_<n>` key bytes.
pub fn level_key(level: u64) -> (r: Vec<u8>)
    ensures
        r@ == level_key_spec(level as int),
{
    let mut out: Vec<u8> = Vec::new();
    out.push(108u8);
    out.push(101u8);
    out.push(118u8);
    out.push(101u8);
    out.push(108u8);
    out.push(95u8);
    push_decimal(&mut out, level);
    proof {
        assert(out@ =~= level_key_spec(level as int));
    }
    out
}

/// The numeric value of a digit string, most significant first.
pub open spec fn digits_value_spec(s: Seq<u8>) -> int
    decreases s.len(),
{
    if s.len() == 0 {
        0
    } else {
        digits_value_spec(s.drop_last()) * 10 + (s.last() - 48)
    }
}

/// Decimal digit strings denote their number: the round trip.
pub proof fn lemma_dec_digits_value(n: int)
    requires
        n >= 0,
    ensures
        digits_value_spec(dec_digits_spec(n)) == n,
        dec_digits_spec(n).len() >= 1,
    decreases n,
{
    if n <= 9 {
        assert(digits_value_spec(Seq::<u8>::empty()) == 0);
        assert(dec_digits_spec(n).drop_last() =~= Seq::<u8>::empty());
        assert(dec_digits_spec(n).last() == (48 + n) as u8);
    } else {
        lemma_dec_digits_value(n / 10);
        assert(dec_digits_spec(n).drop_last() =~= dec_digits_spec(n / 10));
        assert(digits_value_spec(dec_digits_spec(n)) == (n / 10) * 10 + n % 10);
        assert((n / 10) * 10 + n % 10 == n) by (nonlinear_arith)
            requires
                n >= 0,
        ;
    }
}

/// Distinct levels have distinct keys.
pub proof fn lemma_level_key_injective(a: int, b: int)
    requires
        a >= 0,
        b >= 0,
        level_key_spec(a) == level_key_spec(b),
    ensures
        a == b,
{
    lemma_dec_digits_value(a);
    lemma_dec_digits_value(b);
    assert(level_key_spec(a).skip(6) =~= dec_digits_spec(a));
    assert(level_key_spec(b).skip(6) =~= dec_digits_spec(b));
    assert(digits_value_spec(dec_digits_spec(a)) == digits_value_spec(dec_digits_spec(b)));
}

/// The key of one sparse-tree node: two decimal digits of the level, a
/// colon, and sixteen lowercase hex digits of the index.
pub open spec fn node_key_spec(level: int, index: u64) -> Seq<u8> {
    seq![(48 + level / 10) as u8, (48 + level % 10) as u8, 58u8] + hex16_spec(index)
}

/// Sixteen hex digits, most significant nibble first.
pub open spec fn hex16_spec(index: u64) -> Seq<u8> {
    Seq::new(16, |i: int| hex_char_of(nibble_of(index, 15 - i)))
}

/// Nibble `p` of `x`, with nibble 0 least significant.
pub open spec fn nibble_of(x: u64, p: int) -> u8 {
    ((x as int / pow16(p)) % 16) as u8
}

/// Sixteen to the power `p`.
pub open spec fn pow16(p: int) -> int
    decreases p,
{
    if p <= 0 {
        1
    } else {
        16 * pow16(p - 1)
    }
}

/// The `<ll>:<hex16>` node key bytes.
pub fn node_key(level: u64, index: u64) -> (r: Vec<u8>)
    requires
        level < 100,
    ensures
        r@ == node_key_spec(level as int, index),
{
    let ghost target = node_key_spec(level as int, index);
    let mut out: Vec<u8> = Vec::new();
    out.push(48 + ((level / 10) as u8));
    out.push(48 + ((level % 10) as u8));
    out.push(58u8);
    proof {
        assert(out@ =~= target.subrange(0, 3));
    }
    let mut p: usize = 16;
    while p > 0
        invariant
            target == node_key_spec(level as int, index),
            p <= 16,
            out@.len() == 3 + (16 - p),
            out@ == target.subrange(0, 3 + (16 - p)),
        decreases p,
    {
        let nib = nibble_u64(index, (p - 1) as u64);
        out.push(if nib < 10 {
            48 + nib
        } else {
            97 + nib - 10
        });
        p = p - 1;
        proof {
            assert(target[3 + 15 - p] == hex16_spec(index)[15 - p]);
            assert(hex16_spec(index)[15 - p] == hex_char_of(nibble_of(index, p as int)));
            assert(out@ =~= target.subrange(0, 3 + (16 - p)));
        }
    }
    proof {
        assert(target.subrange(0, 19) =~= target);
    }
    out
}

/// Extracts nibble `p` of `x`.
fn nibble_u64(x: u64, p: u64) -> (r: u8)
    requires
        p < 16,
    ensures
        r == nibble_of(x, p as int),
        r < 16,
{
    let mut v = x;
    let mut i: u64 = 0;
    while i < p
        invariant
            i <= p,
            p < 16,
            v == x as int / pow16(i as int),
        decreases p - i,
    {
        proof {
            assert(pow16(i as int + 1) == 16 * pow16(i as int));
            assert(pow16(i as int) >= 1) by {
                lemma_pow16_pos(i as int);
            }
            assert((x as int / pow16(i as int)) / 16 == x as int / (pow16(i as int) * 16)) by {
                vstd::arithmetic::div_mod::lemma_div_denominator(
                    x as int,
                    pow16(i as int),
                    16,
                );
            }
        }
        v = v / 16;
        i = i + 1;
    }
    (v % 16) as u8
}

/// Powers of sixteen are positive.
pub proof fn lemma_pow16_pos(p: int)
    ensures
        pow16(p) >= 1,
    decreases p,
{
    if p > 0 {
        lemma_pow16_pos(p - 1);
    }
}

/// Two numbers with the same sixteen nibbles are equal.
proof fn lemma_nibbles_equal(x: int, y: int, k: int)
    requires
        0 <= k <= 16,
        0 <= x < pow16(k),
        0 <= y < pow16(k),
        forall|p: int| 0 <= p < k ==> x / (#[trigger] pow16(p)) % 16 == y / pow16(p) % 16,
    ensures
        x == y,
    decreases k,
{
    if k == 0 {
    } else {
        assert(pow16(0) == 1);
        assert(x % 16 == y % 16) by {
            assert(x / pow16(0) % 16 == y / pow16(0) % 16);
        }
        assert(pow16(k) == 16 * pow16(k - 1));
        lemma_pow16_pos(k - 1);
        assert(x / 16 < pow16(k - 1) && y / 16 < pow16(k - 1)) by (nonlinear_arith)
            requires
                0 <= x < 16 * pow16(k - 1),
                0 <= y < 16 * pow16(k - 1),
                pow16(k - 1) >= 1,
        ;
        assert forall|p: int| 0 <= p < k - 1 implies (x / 16) / (#[trigger] pow16(p)) % 16 == (y
            / 16) / pow16(p) % 16 by {
            lemma_pow16_pos(p);
            vstd::arithmetic::div_mod::lemma_div_denominator(x, 16, pow16(p));
            vstd::arithmetic::div_mod::lemma_div_denominator(y, 16, pow16(p));
            assert(pow16(p + 1) == 16 * pow16(p));
            assert(x / pow16(p + 1) % 16 == y / pow16(p + 1) % 16);
        }
        lemma_nibbles_equal(x / 16, y / 16, k - 1);
        assert(x == 16 * (x / 16) + x % 16) by {
            vstd::arithmetic::div_mod::lemma_fundamental_div_mod(x, 16);
        }
        assert(y == 16 * (y / 16) + y % 16) by {
            vstd::arithmetic::div_mod::lemma_fundamental_div_mod(y, 16);
        }
    }
}

/// Sixteen nibbles cover a `u64`.
proof fn lemma_pow16_16()
    ensures
        pow16(16) == 0x1_0000_0000_0000_0000,
{
    reveal_with_fuel(pow16, 20);
}

/// Distinct node positions have distinct keys.
pub proof fn lemma_node_key_injective(l1: int, i1: u64, l2: int, i2: u64)
    requires
        0 <= l1 < 100,
        0 <= l2 < 100,
        node_key_spec(l1, i1) == node_key_spec(l2, i2),
    ensures
        l1 == l2,
        i1 == i2,
{
    let ka = node_key_spec(l1, i1);
    let kb = node_key_spec(l2, i2);
    assert(ka[0] == (48 + l1 / 10) as u8 && ka[1] == (48 + l1 % 10) as u8);
    assert(kb[0] == (48 + l2 / 10) as u8 && kb[1] == (48 + l2 % 10) as u8);
    assert(l1 / 10 == l2 / 10 && l1 % 10 == l2 % 10);
    assert(l1 == 10 * (l1 / 10) + l1 % 10) by {
        vstd::arithmetic::div_mod::lemma_fundamental_div_mod(l1, 10);
    }
    assert(l2 == 10 * (l2 / 10) + l2 % 10) by {
        vstd::arithmetic::div_mod::lemma_fundamental_div_mod(l2, 10);
    }
    assert forall|p: int| 0 <= p < 16 implies (i1 as int) / (#[trigger] pow16(p)) % 16 == (
    i2 as int) / pow16(p) % 16 by {
        assert(ka[3 + (15 - p)] == hex_char_of(nibble_of(i1, p)));
        assert(kb[3 + (15 - p)] == hex_char_of(nibble_of(i2, p)));
        assert(nibble_of(i1, p) < 16 && nibble_of(i2, p) < 16);
        assert(nibble_of(i1, p) == nibble_of(i2, p));
    }
    lemma_pow16_16();
    lemma_nibbles_equal(i1 as int, i2 as int, 16);
}

} // verus!
