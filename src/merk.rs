//! Sparse Merkle tree proofs: paths, proof chains, compression and verification.

use crate::hash::{hash_keyed, keyed_hash_of, zero_hash, HashVal};
use crate::bytes::bytes_eq;
use vstd::prelude::*;

verus! {

/// Bit `i` of a byte string, most significant bit of each byte first.
pub open spec fn bit_at(b: Seq<u8>, i: int) -> bool {
    (b[i / 8] & (0x80u8 >> ((i % 8) as u8))) != 0u8
}

/// The root-to-leaf walk for a key: bit `i` of its big-endian bytes.
pub open spec fn path_of(key: Seq<u8>) -> Seq<bool> {
    Seq::new(256, |i: int| bit_at(key, i))
}

/// The domain tag of leaf digests.
pub open spec fn datablock_tag() -> Seq<u8> {
    seq![115u8, 109, 116, 95, 100, 97, 116, 97, 98, 108, 111, 99, 107]
}

/// The domain tag of interior-node digests.
pub open spec fn node_tag() -> Seq<u8> {
    seq![115u8, 109, 116, 95, 110, 111, 100, 101]
}

/// The digest of a leaf holding `data`; the empty value is the sentinel.
pub open spec fn datablock_spec(data: Seq<u8>) -> Seq<u8> {
    if data.len() == 0 {
        zero_hash()
    } else {
        keyed_hash_of(datablock_tag(), data)
    }
}

/// The digest of an interior node; two sentinel children give the sentinel.
pub open spec fn node_spec(l: Seq<u8>, r: Seq<u8>) -> Seq<u8> {
    if l == zero_hash() && r == zero_hash() {
        zero_hash()
    } else {
        keyed_hash_of(node_tag(), l + r)
    }
}

/// One step up the tree: `cur` is the right child when `data_on_right`.
pub open spec fn combine(sibling: Seq<u8>, cur: Seq<u8>, data_on_right: bool) -> Seq<u8> {
    if data_on_right {
        node_spec(sibling, cur)
    } else {
        node_spec(cur, sibling)
    }
}

/// The digest reached after climbing `m` levels from `leaf`, taking siblings
/// from `p` (index 0 nearest the root) and sides from `path`.
pub open spec fn climb(p: Seq<Seq<u8>>, path: Seq<bool>, leaf: Seq<u8>, m: nat) -> Seq<u8>
    decreases m,
{
    if m == 0 {
        leaf
    } else {
        combine(p[256 - m], climb(p, path, leaf, (m - 1) as nat), path[256 - m])
    }
}

/// A proof whose every sibling is the sentinel.
pub open spec fn zero_proof() -> Seq<Seq<u8>> {
    Seq::new(256, |_i: int| zero_hash())
}

/// The root that a proof implies for a key holding `val`.
pub open spec fn root_of(p: Seq<Seq<u8>>, key: Seq<u8>, val: Seq<u8>) -> Seq<u8> {
    climb(p, path_of(key), datablock_spec(val), 256)
}

/// The chain of digests from the root (index 0) down to the leaf (index 256)
/// of a tree that holds `data` under `key` and nothing else.
pub open spec fn chain_of(key: Seq<u8>, data: Seq<u8>) -> Seq<Seq<u8>> {
    Seq::new(257, |i: int| climb(zero_proof(), path_of(key), datablock_spec(data), (256 - i) as nat))
}

fn datablock_tag_bytes() -> (r: Vec<u8>)
    ensures
        r@ == datablock_tag(),
{
    let r = vec![115u8, 109, 116, 95, 100, 97, 116, 97, 98, 108, 111, 99, 107];
    assert(r@ =~= datablock_tag());
    r
}

fn node_tag_bytes() -> (r: Vec<u8>)
    ensures
        r@ == node_tag(),
{
    let r = vec![115u8, 109, 116, 95, 110, 111, 100, 101];
    assert(r@ =~= node_tag());
    r
}

/// The digest of a leaf holding `data`.
pub fn datablock(data: &[u8]) -> (r: HashVal)
    ensures
        r@ == datablock_spec(data@),
{
    if data.len() == 0 {
        HashVal::zero()
    } else {
        let tag = datablock_tag_bytes();
        hash_keyed(tag.as_slice(), data)
    }
}

/// The digest of an interior node with children `l` and `r`.
pub fn node(l: &HashVal, r: &HashVal) -> (res: HashVal)
    ensures
        res@ == node_spec(l@, r@),
{
    if l.is_zero() && r.is_zero() {
        HashVal::zero()
    } else {
        let mut buf: Vec<u8> = Vec::new();
        let mut i: usize = 0;
        while i < 32
            invariant
                0 <= i <= 32,
                l@.len() == 32,
                buf@ =~= l@.subrange(0, i as int),
            decreases 32 - i,
        {
            buf.push(l.0[i]);
            i = i + 1;
        }
        let mut j: usize = 0;
        while j < 32
            invariant
                0 <= j <= 32,
                l@.len() == 32,
                r@.len() == 32,
                buf@ =~= l@ + r@.subrange(0, j as int),
            decreases 32 - j,
        {
            buf.push(r.0[j]);
            j = j + 1;
        }
        assert(buf@ =~= l@ + r@);
        let tag = node_tag_bytes();
        hash_keyed(tag.as_slice(), buf.as_slice())
    }
}

/// The path of a key: bit `i` is bit `i` of the key, most significant bit first.
pub fn key_to_path(key: HashVal) -> (r: [bool; 256])
    ensures
        r@ == path_of(key@),
{
    let mut toret = [false; 256];
    let mut i: usize = 0;
    while i < 32
        invariant
            0 <= i <= 32,
            toret@.len() == 256,
            key@.len() == 32,
            forall|k: int| 0 <= k < 8 * i ==> toret@[k] == bit_at(key@, k),
        decreases 32 - i,
    {
        let k_i = key.0[i];
        let mut j: usize = 0;
        while j < 8
            invariant
                0 <= i < 32,
                0 <= j <= 8,
                toret@.len() == 256,
                key@.len() == 32,
                k_i == key@[i as int],
                forall|k: int| 0 <= k < 8 * i + j ==> toret@[k] == bit_at(key@, k),
            decreases 8 - j,
        {
            let idx = i * 8 + j;
            toret[idx] = k_i & (0x80u8 >> (j as u8)) != 0;
            assert(idx as int / 8 == i && idx as int % 8 == j);
            j = j + 1;
        }
        i = i + 1;
    }
    assert(toret@ =~= path_of(key@));
    toret
}

proof fn lemma_path_bit(a: Seq<u8>, b: Seq<u8>, i: int, j: u8)
    requires
        path_of(a) == path_of(b),
        0 <= i < 32,
        j < 8,
    ensures
        ((a[i] & (0x80u8 >> j)) != 0u8) == ((b[i] & (0x80u8 >> j)) != 0u8),
{
    let k = 8 * i + j as int;
    assert(k / 8 == i && k % 8 == j as int);
    assert(0 <= k < 256);
    assert(((k % 8) as u8) == j);
    assert(path_of(a)[k] == bit_at(a, k));
    assert(path_of(b)[k] == bit_at(b, k));
    assert(path_of(a)[k] == path_of(b)[k]);
}

/// The sides of the walk for a key; equal paths come only from equal keys.
pub proof fn lemma_path_injective(a: Seq<u8>, b: Seq<u8>)
    requires
        a.len() == 32,
        b.len() == 32,
        path_of(a) == path_of(b),
    ensures
        a == b,
{
    assert forall|i: int| 0 <= i < 32 implies a[i] == b[i] by {
        let x = a[i];
        let y = b[i];
        lemma_path_bit(a, b, i, 0u8);
        lemma_path_bit(a, b, i, 1u8);
        lemma_path_bit(a, b, i, 2u8);
        lemma_path_bit(a, b, i, 3u8);
        lemma_path_bit(a, b, i, 4u8);
        lemma_path_bit(a, b, i, 5u8);
        lemma_path_bit(a, b, i, 6u8);
        lemma_path_bit(a, b, i, 7u8);
        assert(x == y) by (bit_vector)
            requires
                ((x & (0x80u8 >> 0u8)) != 0u8) == ((y & (0x80u8 >> 0u8)) != 0u8),
                ((x & (0x80u8 >> 1u8)) != 0u8) == ((y & (0x80u8 >> 1u8)) != 0u8),
                ((x & (0x80u8 >> 2u8)) != 0u8) == ((y & (0x80u8 >> 2u8)) != 0u8),
                ((x & (0x80u8 >> 3u8)) != 0u8) == ((y & (0x80u8 >> 3u8)) != 0u8),
                ((x & (0x80u8 >> 4u8)) != 0u8) == ((y & (0x80u8 >> 4u8)) != 0u8),
                ((x & (0x80u8 >> 5u8)) != 0u8) == ((y & (0x80u8 >> 5u8)) != 0u8),
                ((x & (0x80u8 >> 6u8)) != 0u8) == ((y & (0x80u8 >> 6u8)) != 0u8),
                ((x & (0x80u8 >> 7u8)) != 0u8) == ((y & (0x80u8 >> 7u8)) != 0u8),
        ;
    }
    assert(a =~= b);
}

/// The proof chain of a key holding `data`: 257 digests, index 0 the root of
/// the tree that holds only this entry, index 256 the leaf digest.
pub fn data_hashes(key: HashVal, data: &[u8]) -> (r: Vec<HashVal>)
    ensures
        r@.len() == 257,
        forall|i: int| 0 <= i < 257 ==> (#[trigger] r@[i])@ == chain_of(key@, data@)[i],
{
    let path = key_to_path(key);
    let z = HashVal::zero();
    let mut ptr = datablock(data);
    let mut up: Vec<HashVal> = Vec::new();
    up.push(ptr);
    let mut m: usize = 0;
    while m < 256
        invariant
            0 <= m <= 256,
            path@ == path_of(key@),
            z@ == zero_hash(),
            up@.len() == m + 1,
            ptr@ == climb(zero_proof(), path@, datablock_spec(data@), m as nat),
            forall|j: int|
                0 <= j <= m ==> (#[trigger] up@[j])@ == climb(
                    zero_proof(),
                    path@,
                    datablock_spec(data@),
                    j as nat,
                ),
        decreases 256 - m,
    {
        assert(zero_proof()[255 - m] == zero_hash());
        if path[255 - m] {
            ptr = node(&z, &ptr);
        } else {
            ptr = node(&ptr, &z);
        }
        up.push(ptr);
        m = m + 1;
    }
    let mut r: Vec<HashVal> = Vec::new();
    let mut k: usize = 257;
    while k > 0
        invariant
            0 <= k <= 257,
            up@.len() == 257,
            r@.len() == 257 - k,
            forall|j: int| 0 <= j < 257 - k ==> #[trigger] r@[j] == up@[256 - j],
        decreases k,
    {
        k = k - 1;
        r.push(up[k]);
    }
    r
}

/// How many chains the cache holds before it is emptied.
pub const CHAIN_CACHE_CAPACITY: usize = 10000;

/// A coarse cache of proof chains keyed by key and data. When it grows past
/// its capacity it is emptied whole; it never changes an answer, only saves
/// recomputing one.
pub struct ProofChainCache {
    entries: Vec<(HashVal, Vec<u8>, Vec<HashVal>)>,
}

/// `c` is the proof chain of `key` holding `data`.
pub open spec fn is_chain_of(c: Seq<HashVal>, key: Seq<u8>, data: Seq<u8>) -> bool {
    &&& c.len() == 257
    &&& forall|i: int| 0 <= i < 257 ==> (#[trigger] c[i])@ == chain_of(key, data)[i]
}

fn copy_chain(c: &Vec<HashVal>) -> (r: Vec<HashVal>)
    ensures
        r@ == c@,
{
    let mut r: Vec<HashVal> = Vec::new();
    let mut i: usize = 0;
    while i < c.len()
        invariant
            0 <= i <= c@.len(),
            r@ == c@.subrange(0, i as int),
        decreases c.len() - i,
    {
        r.push(c[i]);
        i = i + 1;
        assert(r@ =~= c@.subrange(0, i as int));
    }
    assert(r@ =~= c@);
    r
}

impl ProofChainCache {
    /// Every cached chain is the right one, and the cache stays within its capacity.
    pub closed spec fn wf(&self) -> bool {
        &&& self.entries@.len() <= CHAIN_CACHE_CAPACITY + 1
        &&& forall|i: int|
            0 <= i < self.entries@.len() ==> is_chain_of(
                (#[trigger] self.entries@[i]).2@,
                self.entries@[i].0@,
                self.entries@[i].1@,
            )
    }

    /// The number of cached chains.
    pub closed spec fn len_spec(&self) -> nat {
        self.entries@.len()
    }

    /// An empty cache.
    pub fn new() -> (r: ProofChainCache)
        ensures
            r.wf(),
            r.len_spec() == 0,
    {
        ProofChainCache { entries: Vec::new() }
    }

    /// The number of cached chains.
    pub fn len(&self) -> (r: usize)
        ensures
            r == self.len_spec(),
    {
        self.entries.len()
    }

    /// The proof chain of `key` holding `data`, from the cache when it is there.
    pub fn data_hashes(&mut self, key: HashVal, data: &[u8]) -> (r: Vec<HashVal>)
        requires
            old(self).wf(),
        ensures
            final(self).wf(),
            is_chain_of(r@, key@, data@),
    {
        if self.entries.len() > CHAIN_CACHE_CAPACITY {
            self.entries = Vec::new();
        }
        let mut i: usize = 0;
        while i < self.entries.len()
            invariant
                self.wf(),
                self.entries@.len() <= CHAIN_CACHE_CAPACITY,
                0 <= i <= self.entries@.len(),
            decreases self.entries@.len() - i,
        {
            let e = &self.entries[i];
            if e.0.same(&key) && bytes_eq(e.1.as_slice(), data) {
                assert(self.entries@[i as int] == *e);
                return copy_chain(&e.2);
            }
            i = i + 1;
        }
        let c = data_hashes(key, data);
        let r = copy_chain(&c);
        let ghost before = self.entries@;
        let mut d: Vec<u8> = Vec::new();
        let mut j: usize = 0;
        while j < data.len()
            invariant
                0 <= j <= data@.len(),
                d@ == data@.subrange(0, j as int),
            decreases data.len() - j,
        {
            d.push(data[j]);
            j = j + 1;
            assert(d@ =~= data@.subrange(0, j as int));
        }
        assert(d@ =~= data@);
        self.entries.push((key, d, c));
        assert forall|k: int| 0 <= k < self.entries@.len() implies is_chain_of(
            (#[trigger] self.entries@[k]).2@,
            self.entries@[k].0@,
            self.entries@[k].1@,
        ) by {
            if k < before.len() {
                assert(self.entries@[k] == before[k]);
            }
        }
        r
    }
}

/// The answer a proof gives for a key and value against a root: `Some(true)`
/// when it proves inclusion, `Some(false)` when it proves exclusion, `None`
/// when it proves neither.
pub open spec fn verify_spec(p: Seq<Seq<u8>>, root: Seq<u8>, key: Seq<u8>, val: Seq<u8>) -> Option<bool> {
    if root_of(p, key, val) == root {
        Some(true)
    } else if root_of(p, key, Seq::empty()) == root {
        Some(false)
    } else {
        None
    }
}

/// Number of levels below `n` whose bitmap bit is clear, that is, whose
/// sibling is stored in full.
pub open spec fn clear_count(bm: Seq<u8>, n: nat) -> nat
    decreases n,
{
    if n == 0 {
        0
    } else {
        clear_count(bm, (n - 1) as nat) + if bit_at(bm, n - 1) {
            0nat
        } else {
            1nat
        }
    }
}

/// The 32 bytes stored for the sibling at level `i` of a compressed proof.
pub open spec fn stored_at(c: Seq<u8>, i: int) -> Seq<u8> {
    let start: int = 32 + 32 * (clear_count(c, i as nat) as int);
    c.subrange(start, start + 32)
}

/// `c` is the compressed form of the 256 siblings `p`: a bitmap marking the
/// sentinels, then each other sibling in level order, and nothing more.
pub open spec fn is_compression_of(c: Seq<u8>, p: Seq<Seq<u8>>) -> bool {
    &&& c.len() == 32 + 32 * clear_count(c, 256)
    &&& forall|i: int| 0 <= i < 256 ==> (bit_at(c, i) <==> p[i] == zero_hash())
    &&& forall|i: int| 0 <= i < 256 && p[i] != zero_hash() ==> stored_at(c, i) == p[i]
}

/// What decompressing `c` gives: `None` when it is shorter than the bitmap,
/// not a whole number of digests, or too short for the siblings the bitmap
/// says are stored.
pub open spec fn decompress_spec(c: Seq<u8>) -> Option<Seq<Seq<u8>>> {
    if c.len() < 32 || c.len() % 32 != 0 || c.len() < 32 + 32 * clear_count(c, 256) {
        None
    } else {
        Some(
            Seq::new(
                256,
                |i: int|
                    if bit_at(c, i) {
                        zero_hash()
                    } else {
                        stored_at(c, i)
                    },
            ),
        )
    }
}

/// Decompressing the compression of a 256-level proof gives that proof back.
pub proof fn lemma_round_trip(p: Seq<Seq<u8>>, c: Seq<u8>)
    requires
        p.len() == 256,
        is_compression_of(c, p),
    ensures
        decompress_spec(c) == Some(p),
{
    let k = clear_count(c, 256);
    assert((32 + 32 * k) % 32 == 0) by (nonlinear_arith);
    let q = decompress_spec(c).unwrap();
    assert(q =~= p);
}

proof fn lemma_clear_count_step(c: Seq<u8>, n: nat)
    ensures
        clear_count(c, n + 1) == clear_count(c, n) + if bit_at(c, n as int) {
            0nat
        } else {
            1nat
        },
{
    assert(((n + 1) as nat - 1) as nat == n);
}

proof fn lemma_clear_count_mono(c: Seq<u8>, a: nat, b: nat)
    requires
        a <= b,
    ensures
        clear_count(c, a) <= clear_count(c, b),
    decreases b - a,
{
    if a < b {
        lemma_clear_count_mono(c, a, (b - 1) as nat);
    }
}

proof fn lemma_clear_count_prefix(c: Seq<u8>, d: Seq<u8>, n: nat)
    requires
        n <= 256,
        c.len() >= 32,
        d.len() >= 32,
        forall|k: int| 0 <= k < 32 ==> c[k] == d[k],
    ensures
        clear_count(c, n) == clear_count(d, n),
    decreases n,
{
    if n > 0 {
        lemma_clear_count_prefix(c, d, (n - 1) as nat);
        assert(0 <= (n - 1) as int / 8 < 32);
    }
}

proof fn lemma_set_bit(x: u8, j: u8, k: u8)
    requires
        j < 8,
        k < 8,
    ensures
        ((x | (0x80u8 >> j)) & (0x80u8 >> k) != 0u8) == (k == j || (x & (0x80u8 >> k)) != 0u8),
        (0u8 & (0x80u8 >> k)) == 0u8,
{
    assert(((x | (0x80u8 >> j)) & (0x80u8 >> k) != 0u8) == (k == j || (x & (0x80u8 >> k)) != 0u8))
        by (bit_vector)
        requires
            j < 8u8,
            k < 8u8,
    ;
    assert((0u8 & (0x80u8 >> k)) == 0u8) by (bit_vector);
}

/// In a tree that holds only `val` under `key`, the root is the head of the
/// key's proof chain, and the all-sentinel proof shows `val` included.
pub proof fn lemma_single_entry_included(key: Seq<u8>, val: Seq<u8>)
    ensures
        chain_of(key, val)[0] == root_of(zero_proof(), key, val),
        verify_spec(zero_proof(), chain_of(key, val)[0], key, val) == Some(true),
{
}

proof fn lemma_zero_climb(path: Seq<bool>, m: nat)
    requires
        m <= 256,
    ensures
        climb(zero_proof(), path, zero_hash(), m) == zero_hash(),
    decreases m,
{
    if m > 0 {
        lemma_zero_climb(path, (m - 1) as nat);
    }
}

/// Against the empty tree, whose root is the sentinel, the all-sentinel
/// proof is never invalid: it shows exclusion unless the value itself climbs
/// to the sentinel.
pub proof fn lemma_empty_tree(key: Seq<u8>, val: Seq<u8>)
    ensures
        root_of(zero_proof(), key, Seq::empty()) == zero_hash(),
        verify_spec(zero_proof(), zero_hash(), key, val) == Some(root_of(zero_proof(), key, val) == zero_hash()),
{
    lemma_zero_climb(path_of(key), 256);
}

/// The value a tree holds at the leaf reached by `path`: the value of the
/// key with that path, or the empty value when no key has it.
pub open spec fn leaf_value(m: Map<Seq<u8>, Seq<u8>>, path: Seq<bool>) -> Seq<u8> {
    if exists|k: Seq<u8>| m.dom().contains(k) && path_of(k) == path {
        m[choose|k: Seq<u8>| m.dom().contains(k) && path_of(k) == path]
    } else {
        Seq::empty()
    }
}

/// The digest of the subtree of `m` whose root is reached by `prefix`.
pub open spec fn subtree_root(m: Map<Seq<u8>, Seq<u8>>, prefix: Seq<bool>) -> Seq<u8>
    decreases 256 - prefix.len(),
{
    if prefix.len() >= 256 {
        datablock_spec(leaf_value(m, prefix))
    } else {
        node_spec(subtree_root(m, prefix.push(false)), subtree_root(m, prefix.push(true)))
    }
}

/// The root of the sparse Merkle tree that holds the entries of `m`.
pub open spec fn tree_root(m: Map<Seq<u8>, Seq<u8>>) -> Seq<u8> {
    subtree_root(m, Seq::empty())
}

/// The proof the tree holding `m` gives for `key`: at each level, the digest
/// of the subtree beside the key's path.
pub open spec fn tree_proof(m: Map<Seq<u8>, Seq<u8>>, key: Seq<u8>) -> Seq<Seq<u8>> {
    Seq::new(256, |i: int| subtree_root(m, path_of(key).take(i).push(!path_of(key)[i])))
}

/// Every key of the tree is 32 bytes long.
pub open spec fn keys_are_digests(m: Map<Seq<u8>, Seq<u8>>) -> bool {
    forall|k: Seq<u8>| #[trigger] m.dom().contains(k) ==> k.len() == 32
}

proof fn lemma_tree_climb(m: Map<Seq<u8>, Seq<u8>>, key: Seq<u8>, j: nat)
    requires
        j <= 256,
    ensures
        climb(tree_proof(m, key), path_of(key), datablock_spec(leaf_value(m, path_of(key))), j)
            == subtree_root(m, path_of(key).take(256 - j)),
    decreases j,
{
    let path = path_of(key);
    if j == 0 {
        assert(path.take(256) =~= path);
    } else {
        lemma_tree_climb(m, key, (j - 1) as nat);
        let i = 256 - j;
        let pre = path.take(i);
        assert(path.take(i + 1) =~= pre.push(path[i]));
        assert(tree_proof(m, key)[i] == subtree_root(m, pre.push(!path[i])));
    }
}

proof fn lemma_tree_leaf(m: Map<Seq<u8>, Seq<u8>>, key: Seq<u8>)
    requires
        keys_are_digests(m),
        key.len() == 32,
    ensures
        leaf_value(m, path_of(key)) == if m.dom().contains(key) {
            m[key]
        } else {
            Seq::empty()
        },
{
    let path = path_of(key);
    if exists|k: Seq<u8>| m.dom().contains(k) && path_of(k) == path {
        let k = choose|k: Seq<u8>| m.dom().contains(k) && path_of(k) == path;
        lemma_path_injective(k, key);
    } else {
        assert(!m.dom().contains(key));
    }
}

/// In any tree whose keys are digests, the proof the tree gives for a key it
/// holds shows that key's value included against the tree's root.
pub proof fn lemma_tree_included(m: Map<Seq<u8>, Seq<u8>>, key: Seq<u8>)
    requires
        keys_are_digests(m),
        m.dom().contains(key),
    ensures
        verify_spec(tree_proof(m, key), tree_root(m), key, m[key]) == Some(true),
{
    lemma_tree_leaf(m, key);
    lemma_tree_climb(m, key, 256);
    assert(path_of(key).take(0) =~= Seq::<bool>::empty());
}

/// In any tree whose keys are digests, the proof the tree gives for a key it
/// does not hold is never invalid: the key holds the empty value, and any
/// value `w` is shown excluded unless it climbs to the same root.
pub proof fn lemma_tree_excluded(m: Map<Seq<u8>, Seq<u8>>, key: Seq<u8>, w: Seq<u8>)
    requires
        keys_are_digests(m),
        key.len() == 32,
        !m.dom().contains(key),
    ensures
        root_of(tree_proof(m, key), key, Seq::empty()) == tree_root(m),
        verify_spec(tree_proof(m, key), tree_root(m), key, w) == Some(
            root_of(tree_proof(m, key), key, w) == tree_root(m),
        ),
{
    lemma_tree_leaf(m, key);
    lemma_tree_climb(m, key, 256);
    assert(path_of(key).take(0) =~= Seq::<bool>::empty());
}

/// A full proof: one sibling digest per level, index 0 nearest the root.
#[derive(Clone, Debug, PartialEq, Eq, Hash, PartialOrd, Ord)]
pub struct FullProof(pub Vec<HashVal>);

impl View for FullProof {
    type V = Seq<Seq<u8>>;

    open spec fn view(&self) -> Seq<Seq<u8>> {
        self.0@.map_values(|h: HashVal| h@)
    }
}

/// A compressed proof: a 32-byte bitmap of the sentinel levels, then the
/// other siblings in level order.
#[derive(Clone, Debug, PartialEq, Eq, Hash, PartialOrd, Ord)]
pub struct CompressedProof(pub Vec<u8>);

impl View for CompressedProof {
    type V = Seq<u8>;

    open spec fn view(&self) -> Seq<u8> {
        self.0@
    }
}

fn push_hash(out: &mut Vec<u8>, h: &HashVal)
    ensures
        final(out)@ == old(out)@ + h@,
{
    let mut t: usize = 0;
    while t < 32
        invariant
            0 <= t <= 32,
            h@.len() == 32,
            out@ == old(out)@ + h@.subrange(0, t as int),
        decreases 32 - t,
    {
        out.push(h.0[t]);
        t = t + 1;
        assert(h@.subrange(0, t as int) =~= h@.subrange(0, t - 1) + seq![h@[t - 1]]);
    }
    assert(h@.subrange(0, 32) =~= h@);
}

/// Appending the stored form of sibling `i` keeps every earlier stored
/// sibling where it was.
proof fn lemma_append_stored(bm: Seq<u8>, p: Seq<Seq<u8>>, before: Seq<u8>, i: nat)
    requires
        i < 256,
        p.len() == 256,
        bm.len() == 32,
        !bit_at(bm, i as int),
        forall|k: int| 0 <= k < 256 ==> (bit_at(bm, k) <==> p[k] == zero_hash()),
        before.len() == 32 + 32 * clear_count(bm, i),
        forall|k: int|
            0 <= k < i && p[k] != zero_hash() ==> before.subrange(
                32 + 32 * (clear_count(bm, k as nat) as int),
                32 + 32 * (clear_count(bm, k as nat) as int) + 32,
            ) == p[k],
        p[i as int].len() == 32,
    ensures
        ({
            let out = before + p[i as int];
            forall|k: int|
                0 <= k < i + 1 && p[k] != zero_hash() ==> out.subrange(
                    32 + 32 * (clear_count(bm, k as nat) as int),
                    32 + 32 * (clear_count(bm, k as nat) as int) + 32,
                ) == p[k]
        }),
{
    let out = before + p[i as int];
    assert forall|k: int|
        0 <= k < i + 1 && p[k] != zero_hash() implies out.subrange(
        32 + 32 * (clear_count(bm, k as nat) as int),
        32 + 32 * (clear_count(bm, k as nat) as int) + 32,
    ) == p[k] by {
        let st = 32 + 32 * (clear_count(bm, k as nat) as int);
        if k < i {
            lemma_clear_count_step(bm, k as nat);
            lemma_clear_count_mono(bm, (k + 1) as nat, i);
            assert(out.subrange(st, st + 32) =~= before.subrange(st, st + 32));
        } else {
            assert(out.subrange(st, st + 32) =~= p[i as int]);
        }
    }
}

impl FullProof {
    /// Compresses a 256-level proof.
    #[verifier::rlimit(40)]
    pub fn compress(&self) -> (r: CompressedProof)
        requires
            self@.len() == 256,
        ensures
            is_compression_of(r@, self@),
    {
        let ghost p = self@;
        let mut out: Vec<u8> = Vec::new();
        let mut b: usize = 0;
        while b < 32
            invariant
                0 <= b <= 32,
                p == self@,
                p.len() == 256,
                out@.len() == b,
                forall|i: int| 0 <= i < 8 * b ==> (bit_at(out@, i) <==> p[i] == zero_hash()),
            decreases 32 - b,
        {
            let mut byte: u8 = 0;
            let mut j: usize = 0;
            proof {
                assert forall|k: u8| k < 8 implies (0u8 & (0x80u8 >> k)) == 0u8 by {
                    lemma_set_bit(0u8, 0u8, k);
                }
            }
            while j < 8
                invariant
                    0 <= b < 32,
                    0 <= j <= 8,
                    p == self@,
                    p.len() == 256,
                    forall|k: u8| k < j ==> (((byte & (0x80u8 >> k)) != 0u8) <==> p[8 * b + k] == zero_hash()),
                    forall|k: u8| j <= k < 8 ==> (byte & (0x80u8 >> k)) == 0u8,
                decreases 8 - j,
            {
                let old_byte = byte;
                if self.0[8 * b + j].is_zero() {
                    byte = byte | (0x80u8 >> (j as u8));
                }
                proof {
                    assert forall|k: u8| k < 8 implies ((byte & (0x80u8 >> k)) != 0u8) == (
                    (k == j as u8 && p[8 * b + j] == zero_hash()) || (old_byte & (0x80u8 >> k))
                        != 0u8) by {
                        lemma_set_bit(old_byte, j as u8, k);
                    }
                }
                j = j + 1;
            }
            out.push(byte);
            proof {
                assert forall|i: int| 0 <= i < 8 * (b + 1) implies (bit_at(out@, i) <==> p[i]
                    == zero_hash()) by {
                    if i >= 8 * b {
                        let k = (i - 8 * b) as u8;
                        assert(i / 8 == b as int && i % 8 == k as int);
                        assert(((i % 8) as u8) == k);
                    } else {
                        assert(0 <= i / 8 < b);
                    }
                }
            }
            b = b + 1;
        }
        let ghost bm = out@;
        let mut i: usize = 0;
        while i < 256
            invariant
                0 <= i <= 256,
                p == self@,
                p.len() == 256,
                bm.len() == 32,
                forall|k: int| 0 <= k < 256 ==> (bit_at(bm, k) <==> p[k] == zero_hash()),
                out@.len() == 32 + 32 * clear_count(bm, i as nat),
                out@.subrange(0, 32) == bm,
                forall|k: int|
                    0 <= k < i && p[k] != zero_hash() ==> out@.subrange(
                        32 + 32 * (clear_count(bm, k as nat) as int),
                        32 + 32 * (clear_count(bm, k as nat) as int) + 32,
                    ) == p[k],
            decreases 256 - i,
        {
            let ghost before = out@;
            proof {
                lemma_clear_count_step(bm, i as nat);
                assert(p[i as int] == self.0@[i as int]@);
            }
            if !self.0[i].is_zero() {
                push_hash(&mut out, &self.0[i]);
                proof {
                    lemma_append_stored(bm, p, before, i as nat);
                }
            }
            i = i + 1;
        }
        proof {
            let c = out@;
            assert forall|k: int| 0 <= k < 32 implies c[k] == bm[k] by {
                assert(c.subrange(0, 32)[k] == c[k]);
            }
            assert forall|n: nat| n <= 256 implies clear_count(c, n) == clear_count(bm, n) by {
                lemma_clear_count_prefix(c, bm, n);
            }
            assert forall|k: int| 0 <= k < 256 implies bit_at(c, k) == bit_at(bm, k) by {
                assert(0 <= k / 8 < 32);
            }
        }
        CompressedProof(out)
    }

    /// Checks the proof for `key` holding `val` against `root`: `Some(true)`
    /// proves inclusion, `Some(false)` proves exclusion, `None` neither.
    pub fn verify(&self, root: HashVal, key: HashVal, val: &[u8]) -> (r: Option<bool>)
        requires
            self@.len() == 256,
        ensures
            r == verify_spec(self@, root@, key@, val@),
    {
        if self.verify_pure(&root, &key, val) {
            Some(true)
        } else {
            let empty: Vec<u8> = Vec::new();
            assert(empty@ =~= Seq::<u8>::empty());
            if self.verify_pure(&root, &key, empty.as_slice()) {
                Some(false)
            } else {
                None
            }
        }
    }

    /// Whether the root the proof implies for `key` holding `val` is `root`.
    fn verify_pure(&self, root: &HashVal, key: &HashVal, val: &[u8]) -> (r: bool)
        requires
            self@.len() == 256,
        ensures
            r == (root_of(self@, key@, val@) == root@),
    {
        let path = key_to_path(*key);
        let mut my_root = datablock(val);
        let mut m: usize = 0;
        while m < 256
            invariant
                0 <= m <= 256,
                self@.len() == 256,
                path@ == path_of(key@),
                my_root@ == climb(self@, path@, datablock_spec(val@), m as nat),
            decreases 256 - m,
        {
            let level = &self.0[255 - m];
            if path[255 - m] {
                my_root = node(level, &my_root);
            } else {
                my_root = node(&my_root, level);
            }
            m = m + 1;
        }
        root.same(&my_root)
    }
}

impl CompressedProof {
    /// Decompresses the proof; `None` when the bytes are not a well-formed
    /// compressed proof.
    pub fn decompress(&self) -> (r: Option<FullProof>)
        ensures
            match r {
                Some(p) => decompress_spec(self@) == Some(p@),
                None => decompress_spec(self@) is None,
            },
    {
        let b = &self.0;
        let len = b.len();
        if len < 32 || len % 32 != 0 {
            return None;
        }
        let ghost c = b@;
        let mut out: Vec<HashVal> = Vec::new();
        let mut ptr: usize = 32;
        let mut i: usize = 0;
        while i < 256
            invariant
                0 <= i <= 256,
                c == b@,
                c == self@,
                len == c.len(),
                len >= 32,
                len % 32 == 0,
                ptr == 32 + 32 * clear_count(c, i as nat),
                ptr <= len,
                out@.len() == i,
                forall|k: int|
                    0 <= k < i ==> (#[trigger] out@[k])@ == if bit_at(c, k) {
                        zero_hash()
                    } else {
                        stored_at(c, k)
                    },
            decreases 256 - i,
        {
            proof {
                lemma_clear_count_step(c, i as nat);
                assert(((i as int % 8) as u8) == (i % 8) as u8);
            }
            let is_zero = (b[i / 8] & (0x80u8 >> ((i % 8) as u8))) != 0u8;
            assert(is_zero == bit_at(c, i as int));
            if is_zero {
                out.push(HashVal::zero());
            } else {
                if len - ptr < 32 {
                    proof {
                        lemma_clear_count_mono(c, (i + 1) as nat, 256);
                        assert(len < 32 + 32 * clear_count(c, 256));
                    }
                    return None;
                }
                let mut a = [0u8; 32];
                let mut t: usize = 0;
                while t < 32
                    invariant
                        0 <= t <= 32,
                        ptr + 32 <= len,
                        len == c.len(),
                        c == b@,
                        a@.len() == 32,
                        forall|q: int| 0 <= q < t ==> a@[q] == c[ptr + q],
                    decreases 32 - t,
                {
                    a[t] = b[ptr + t];
                    t = t + 1;
                }
                let h = HashVal(a);
                assert(h@ =~= stored_at(c, i as int));
                out.push(h);
                ptr = ptr + 32;
            }
            i = i + 1;
        }
        let r = FullProof(out);
        proof {
            assert(r@ =~= decompress_spec(c).unwrap());
        }
        Some(r)
    }
}

} // verus!
