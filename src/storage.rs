//! The node's state store: the chain of sealed states, the metadata
//! dictionary, the pending-transaction pool and the trust checkpoints.

use crate::block::Block;
use crate::bytes::{bytes_eq, copy_bytes};
use crate::hash::{hash_single, single_hash_of, HashVal};
use vstd::prelude::*;

verus! {

/// A pair of key and value bytes, viewed as sequences.
pub open spec fn pair_view(e: (Vec<u8>, Vec<u8>)) -> (Seq<u8>, Seq<u8>) {
    (e.0@, e.1@)
}

/// The value that the latest entry with key `k` holds, if any.
pub open spec fn lookup(s: Seq<(Seq<u8>, Seq<u8>)>, k: Seq<u8>) -> Option<Seq<u8>>
    decreases s.len(),
{
    if s.len() == 0 {
        None
    } else if s.last().0 == k {
        Some(s.last().1)
    } else {
        lookup(s.drop_last(), k)
    }
}

proof fn lemma_lookup_update(s: Seq<(Seq<u8>, Seq<u8>)>, i: int, v: Seq<u8>, k: Seq<u8>)
    requires
        0 <= i < s.len(),
        forall|j: int| i < j < s.len() ==> s[j].0 != s[i].0,
    ensures
        lookup(s.update(i, (s[i].0, v)), k) == if k == s[i].0 {
            Some(v)
        } else {
            lookup(s, k)
        },
    decreases s.len(),
{
    let t = s.update(i, (s[i].0, v));
    if i < s.len() - 1 {
        assert(t.drop_last() =~= s.drop_last().update(i, (s[i].0, v)));
        lemma_lookup_update(s.drop_last(), i, v, k);
    } else {
        assert(t.drop_last() =~= s.drop_last());
    }
}

/// A key-value dictionary of byte strings.
pub struct Metadata {
    entries: Vec<(Vec<u8>, Vec<u8>)>,
}

impl Metadata {
    /// The entries, oldest first, as pairs of sequences.
    pub closed spec fn pairs(&self) -> Seq<(Seq<u8>, Seq<u8>)> {
        self.entries@.map_values(|e: (Vec<u8>, Vec<u8>)| pair_view(e))
    }

    /// What the dictionary holds under `k`.
    pub open spec fn get_spec(&self, k: Seq<u8>) -> Option<Seq<u8>> {
        lookup(self.pairs(), k)
    }

    /// An empty dictionary.
    pub fn new() -> (r: Metadata)
        ensures
            forall|k: Seq<u8>| r.get_spec(k) is None,
    {
        let r = Metadata { entries: Vec::new() };
        assert(r.pairs() =~= Seq::empty());
        r
    }

    /// A dictionary of the given entries; a later entry overrides an earlier
    /// one with the same key.
    pub fn from_entries(entries: Vec<(Vec<u8>, Vec<u8>)>) -> (r: Metadata)
        ensures
            r.pairs() == entries@.map_values(|e: (Vec<u8>, Vec<u8>)| pair_view(e)),
    {
        Metadata { entries }
    }

    /// The entries, oldest first.
    pub fn entries(&self) -> (r: &Vec<(Vec<u8>, Vec<u8>)>)
        ensures
            r@.map_values(|e: (Vec<u8>, Vec<u8>)| pair_view(e)) == self.pairs(),
    {
        &self.entries
    }

    /// The index of the latest entry with key `k`.
    fn find(&self, k: &[u8]) -> (r: Option<usize>)
        ensures
            match r {
                Some(i) => i < self.pairs().len() && self.pairs()[i as int].0 == k@ && (forall|j: int|
                    i < j < self.pairs().len() ==> self.pairs()[j].0 != k@) && lookup(self.pairs(), k@)
                    == Some(self.pairs()[i as int].1),
                None => lookup(self.pairs(), k@) is None,
            },
    {
        let mut n = self.entries.len();
        assert(self.pairs().subrange(0, n as int) =~= self.pairs());
        while n > 0
            invariant
                0 <= n <= self.pairs().len(),
                self.pairs().len() == self.entries@.len(),
                forall|j: int| n <= j < self.pairs().len() ==> self.pairs()[j].0 != k@,
                lookup(self.pairs(), k@) == lookup(self.pairs().subrange(0, n as int), k@),
            decreases n,
        {
            let ghost s = self.pairs().subrange(0, n as int);
            assert(s.drop_last() =~= self.pairs().subrange(0, n - 1));
            if bytes_eq(self.entries[n - 1].0.as_slice(), k) {
                return Some(n - 1);
            }
            n = n - 1;
        }
        None
    }

    /// The value under `k`.
    pub fn get(&self, k: &[u8]) -> (r: Option<Vec<u8>>)
        ensures
            match r {
                Some(v) => self.get_spec(k@) == Some(v@),
                None => self.get_spec(k@) is None,
            },
    {
        match self.find(k) {
            Some(i) => Some(self.entries[i].1.clone()),
            None => None,
        }
    }

    /// Sets the value under `k` to `v`, leaving every other key as it was.
    pub fn insert(&mut self, k: Vec<u8>, v: Vec<u8>)
        ensures
            final(self).get_spec(k@) == Some(v@),
            forall|q: Seq<u8>| q != k@ ==> final(self).get_spec(q) == old(self).get_spec(q),
    {
        match self.find(k.as_slice()) {
            Some(i) => {
                let ghost s = self.pairs();
                let ghost vv = v@;
                self.entries.set(i, (k, v));
                proof {
                    assert(self.pairs() =~= s.update(i as int, (s[i as int].0, vv)));
                    assert forall|q: Seq<u8>| #[trigger] lookup(self.pairs(), q) == if q == s[i as int].0 {
                        Some(vv)
                    } else {
                        lookup(s, q)
                    } by {
                        lemma_lookup_update(s, i as int, vv, q);
                    }
                }
            },
            None => {
                let ghost s = self.pairs();
                let ghost kk = k@;
                let ghost vv = v@;
                self.entries.push((k, v));
                proof {
                    assert(self.pairs().drop_last() =~= s);
                }
            },
        }
    }
}

/// The decimal digits of `n`, in ASCII.
pub open spec fn decimal(n: nat) -> Seq<u8>
    decreases n,
{
    if n < 10 {
        seq![(48 + n) as u8]
    } else {
        decimal(n / 10).push((48 + n % 10) as u8)
    }
}

/// The metadata key of the sealed state at height `h`: `state-{h}`.
pub open spec fn state_key(h: nat) -> Seq<u8> {
    seq![115u8, 116, 97, 116, 101, 45] + decimal(h)
}

/// The metadata key of the consensus proof at height `h`: `cproof-{h}`.
pub open spec fn cproof_key(h: nat) -> Seq<u8> {
    seq![99u8, 112, 114, 111, 111, 102, 45] + decimal(h)
}

/// The metadata key of the last state flushed to disk: `last_confirmed`.
pub open spec fn last_confirmed_key() -> Seq<u8> {
    seq![108u8, 97, 115, 116, 95, 99, 111, 110, 102, 105, 114, 109, 101, 100]
}

fn push_decimal(out: &mut Vec<u8>, n: u64)
    ensures
        final(out)@ == old(out)@ + decimal(n as nat),
    decreases n,
{
    if n >= 10 {
        push_decimal(out, n / 10);
    }
    let d: u8 = (n % 10) as u8;
    out.push(48u8 + d);
    proof {
        if n < 10 {
            assert(decimal(n as nat) =~= seq![(48 + n) as u8]);
        } else {
            assert(decimal(n as nat) == decimal((n / 10) as nat).push((48 + n % 10) as u8));
        }
        assert(final(out)@ =~= old(out)@ + decimal(n as nat));
    }
}

/// The key `state-{h}`.
pub fn state_key_bytes(h: u64) -> (r: Vec<u8>)
    ensures
        r@ == state_key(h as nat),
{
    let mut r = vec![115u8, 116, 97, 116, 101, 45];
    push_decimal(&mut r, h);
    r
}

/// The key `cproof-{h}`.
pub fn cproof_key_bytes(h: u64) -> (r: Vec<u8>)
    ensures
        r@ == cproof_key(h as nat),
{
    let mut r = vec![99u8, 112, 114, 111, 111, 102, 45];
    push_decimal(&mut r, h);
    r
}

/// The key `last_confirmed`.
pub fn last_confirmed_key_bytes() -> (r: Vec<u8>)
    ensures
        r@ == last_confirmed_key(),
{
    let r = vec![108u8, 97, 115, 116, 95, 99, 111, 110, 102, 105, 114, 109, 101, 100];
    assert(r@ =~= last_confirmed_key());
    r
}

/// The lower-case hexadecimal digit of a value below 16, in ASCII.
pub open spec fn hex_digit(n: u8) -> u8 {
    if n < 10 {
        (48 + n) as u8
    } else {
        (87 + n) as u8
    }
}

/// The lower-case hexadecimal form of a byte string, two digits per byte.
pub open spec fn hex_of(b: Seq<u8>) -> Seq<u8>
    decreases b.len(),
{
    if b.len() == 0 {
        Seq::empty()
    } else {
        hex_of(b.drop_last()) + seq![hex_digit(b.last() / 16), hex_digit(b.last() % 16)]
    }
}

/// The name of the dictionary that holds a chain's metadata:
/// `meta_genesis` followed by the hex of the hash of its serialized genesis
/// configuration, so that chains with different genesis never share keys.
pub open spec fn metadata_namespace_spec(genesis: Seq<u8>) -> Seq<u8> {
    seq![109u8, 101, 116, 97, 95, 103, 101, 110, 101, 115, 105, 115] + hex_of(single_hash_of(genesis))
}

fn hex_digit_byte(n: u8) -> (r: u8)
    requires
        n < 16,
    ensures
        r == hex_digit(n),
{
    if n < 10 {
        48 + n
    } else {
        87 + n
    }
}

/// The name of the metadata dictionary of the chain whose serialized genesis
/// configuration is `genesis`.
pub fn metadata_namespace(genesis: &[u8]) -> (r: Vec<u8>)
    ensures
        r@ == metadata_namespace_spec(genesis@),
{
    let id = hash_single(genesis);
    let mut r = vec![109u8, 101, 116, 97, 95, 103, 101, 110, 101, 115, 105, 115];
    let ghost prefix = r@;
    let mut i: usize = 0;
    while i < 32
        invariant
            0 <= i <= 32,
            id@.len() == 32,
            r@ == prefix + hex_of(id@.subrange(0, i as int)),
        decreases 32 - i,
    {
        let b = id.0[i];
        r.push(hex_digit_byte(b / 16));
        r.push(hex_digit_byte(b % 16));
        proof {
            let s = id@.subrange(0, i + 1);
            assert(s.drop_last() =~= id@.subrange(0, i as int));
            assert(s.last() == b);
        }
        i = i + 1;
        assert(r@ =~= prefix + hex_of(id@.subrange(0, i as int)));
    }
    assert(id@.subrange(0, 32) =~= id@);
    assert(prefix =~= seq![109u8, 101, 116, 97, 95, 103, 101, 110, 101, 115, 105, 115]);
    r
}

/// What is known of a sealed state: its height, its authenticated root and
/// its partial encoding.
pub ghost struct StateView {
    pub height: nat,
    pub root: Seq<u8>,
    pub encoding: Seq<u8>,
}

/// An immutable snapshot of the ledger at a height.
#[derive(Debug)]
pub struct SealedState {
    pub height: u64,
    pub root: HashVal,
    pub partial_encoding: Vec<u8>,
}

impl View for SealedState {
    type V = StateView;

    open spec fn view(&self) -> StateView {
        StateView { height: self.height as nat, root: self.root@, encoding: self.partial_encoding@ }
    }
}

impl SealedState {
    /// A copy of this state.
    pub fn copy(&self) -> (r: SealedState)
        ensures
            r@ == self@,
    {
        SealedState {
            height: self.height,
            root: self.root,
            partial_encoding: self.partial_encoding.clone(),
        }
    }

    /// The speculative state built on this one.
    pub fn next_state(&self) -> (r: PendingState)
        ensures
            r@ == next_state_of(self@),
    {
        PendingState { parent_height: self.height, parent_root: self.root }
    }
}

/// The speculative state on top of a sealed state, at the next height.
#[derive(Debug, Clone, Copy)]
pub struct PendingState {
    pub parent_height: u64,
    pub parent_root: HashVal,
}

impl View for PendingState {
    type V = (nat, Seq<u8>);

    open spec fn view(&self) -> (nat, Seq<u8>) {
        (self.parent_height as nat, self.parent_root@)
    }
}

/// The speculative state built on `s`, as its parent height and root.
pub open spec fn next_state_of(s: StateView) -> (nat, Seq<u8>) {
    (s.height, s.root)
}

/// The pool of not yet confirmed transactions, each held in serialized form,
/// and the speculative state it builds on.
#[derive(Debug)]
pub struct Mempool {
    base: PendingState,
    txs: Vec<Vec<u8>>,
}

impl Mempool {
    /// The state the pool builds on.
    pub closed spec fn base_spec(&self) -> (nat, Seq<u8>) {
        self.base@
    }

    /// The pending transactions, oldest first.
    pub closed spec fn txs_spec(&self) -> Seq<Seq<u8>> {
        self.txs@.map_values(|t: Vec<u8>| t@)
    }

    /// An empty pool on `base`.
    pub fn new(base: PendingState) -> (r: Mempool)
        ensures
            r.base_spec() == base@,
            r.txs_spec().len() == 0,
    {
        let r = Mempool { base, txs: Vec::new() };
        assert(r.txs_spec() =~= Seq::empty());
        r
    }

    /// The state the pool builds on.
    pub fn base(&self) -> (r: PendingState)
        ensures
            r@ == self.base_spec(),
    {
        self.base
    }

    /// The number of pending transactions.
    pub fn len(&self) -> (r: usize)
        ensures
            r == self.txs_spec().len(),
    {
        self.txs.len()
    }

    /// Adds a serialized transaction to the pool.
    pub fn add_transaction(&mut self, tx: Vec<u8>)
        ensures
            final(self).base_spec() == old(self).base_spec(),
            final(self).txs_spec() == old(self).txs_spec().push(tx@),
    {
        let ghost t = tx@;
        self.txs.push(tx);
        assert(self.txs_spec() =~= old(self).txs_spec().push(t));
    }

    /// Moves the pool onto a new base; what was pending on the old base is dropped.
    pub fn rebase(&mut self, next: PendingState)
        ensures
            final(self).base_spec() == next@,
            final(self).txs_spec().len() == 0,
    {
        self.base = next;
        self.txs = Vec::new();
        assert(self.txs_spec() =~= Seq::empty());
    }
}

/// Why the store refused an operation.
#[derive(Debug, Clone, Copy, PartialEq, Eq, Structural)]
pub enum StorageError {
    /// The block's height is not one above the highest state's.
    SequenceViolation,
    /// The applied state does not stand at the block's height.
    HeightMismatch,
    /// Stored bytes could not be deserialized.
    DecodeFailure,
}

/// A trust checkpoint: a height and the hash of the header at that height.
#[derive(Debug, Clone, Copy, PartialEq, Eq)]
pub struct TrustedHeight {
    pub height: u64,
    pub header_hash: HashVal,
}

/// Everything a full node stores: the highest sealed state, the metadata
/// dictionary and the pending-transaction pool.
pub struct NodeStorage {
    mempool: Mempool,
    metadata: Metadata,
    highest: SealedState,
}

impl NodeStorage {
    /// The highest sealed state.
    pub closed spec fn highest_spec(&self) -> StateView {
        self.highest@
    }

    /// The metadata dictionary.
    pub closed spec fn metadata_spec(&self) -> Metadata {
        self.metadata
    }

    /// The pending-transaction pool.
    pub closed spec fn mempool_spec(&self) -> Mempool {
        self.mempool
    }

    /// The pool always builds on the speculative successor of the highest state.
    pub open spec fn wf(&self) -> bool {
        self.mempool_spec().base_spec() == next_state_of(self.highest_spec())
    }

    /// Opens a store over `metadata`. Its highest state is `restored`, the
    /// state last flushed to disk, when there is one, and `genesis` otherwise.
    pub fn new(metadata: Metadata, restored: Option<SealedState>, genesis: SealedState) -> (r: NodeStorage)
        ensures
            r.wf(),
            r.highest_spec() == match restored {
                Some(s) => s@,
                None => genesis@,
            },
            r.metadata_spec() == metadata,
            r.mempool_spec().txs_spec().len() == 0,
    {
        let highest = match restored {
            Some(s) => s,
            None => genesis,
        };
        let mempool = Mempool::new(highest.next_state());
        NodeStorage { mempool, metadata, highest }
    }

    /// The pending-transaction pool.
    pub fn mempool(&self) -> (r: &Mempool)
        ensures
            *r == self.mempool_spec(),
    {
        &self.mempool
    }

    /// The metadata dictionary.
    pub fn metadata(&self) -> (r: &Metadata)
        ensures
            *r == self.metadata_spec(),
    {
        &self.metadata
    }

    /// Adds a serialized transaction to the pool.
    pub fn add_transaction(&mut self, tx: Vec<u8>)
        requires
            old(self).wf(),
        ensures
            final(self).wf(),
            final(self).highest_spec() == old(self).highest_spec(),
            final(self).metadata_spec() == old(self).metadata_spec(),
            final(self).mempool_spec().txs_spec() == old(self).mempool_spec().txs_spec().push(tx@),
    {
        self.mempool.add_transaction(tx);
    }

    /// The highest sealed state.
    pub fn highest_state(&self) -> (r: SealedState)
        ensures
            r@ == self.highest_spec(),
    {
        self.highest.copy()
    }

    /// The height of the highest sealed state.
    pub fn highest_height(&self) -> (r: u64)
        ensures
            r == self.highest_spec().height,
    {
        self.highest.height
    }

    /// The partial encoding of the sealed state at `height`, if one is stored.
    pub fn get_state(&self, height: u64) -> (r: Option<Vec<u8>>)
        ensures
            match r {
                Some(v) => self.metadata_spec().get_spec(state_key(height as nat)) == Some(v@),
                None => self.metadata_spec().get_spec(state_key(height as nat)) is None,
            },
    {
        let k = state_key_bytes(height);
        self.metadata.get(k.as_slice())
    }

    /// The serialized consensus proof of the block at `height`, if one is stored.
    pub fn get_consensus(&self, height: u64) -> (r: Option<Vec<u8>>)
        ensures
            match r {
                Some(v) => self.metadata_spec().get_spec(cproof_key(height as nat)) == Some(v@),
                None => self.metadata_spec().get_spec(cproof_key(height as nat)) is None,
            },
    {
        let k = cproof_key_bytes(height);
        self.metadata.get(k.as_slice())
    }

    /// Applies a block: `new_state` is what the state-transition function
    /// made of the highest state and `blk`, and `cproof` the block's
    /// serialized consensus proof. The block must stand
    /// one above the highest state; then the new state and the proof are
    /// stored under its height, it becomes the highest state, and the pool is
    /// moved onto it. On an error nothing changes.
    pub fn apply_block(&mut self, blk: &Block, new_state: SealedState, cproof: Vec<u8>) -> (r: Result<(), StorageError>)
        requires
            old(self).wf(),
        ensures
            final(self).wf(),
            (blk.header.height as int != old(self).highest_spec().height + 1) ==> r == Err::<(), StorageError>(StorageError::SequenceViolation),
            (blk.header.height as int == old(self).highest_spec().height + 1 && new_state.height != blk.header.height) ==> r == Err::<(), StorageError>(StorageError::HeightMismatch),
            (blk.header.height as int == old(self).highest_spec().height + 1 && new_state.height == blk.header.height) ==> r is Ok,
            r is Err ==> *final(self) == *old(self),
            r is Ok ==> {
                &&& final(self).highest_spec() == new_state@
                &&& final(self).mempool_spec().base_spec() == next_state_of(new_state@)
                &&& final(self).mempool_spec().txs_spec().len() == 0
                &&& final(self).metadata_spec().get_spec(state_key(blk.header.height as nat)) == Some(new_state@.encoding)
                &&& final(self).metadata_spec().get_spec(cproof_key(blk.header.height as nat)) == Some(cproof@)
                &&& forall|q: Seq<u8>| q != state_key(blk.header.height as nat) && q != cproof_key(blk.header.height as nat)
                    ==> final(self).metadata_spec().get_spec(q) == old(self).metadata_spec().get_spec(q)
            },
    {
        let height = blk.header.height;
        let highest_height = self.highest.height;
        if highest_height == u64::MAX || height != highest_height + 1 {
            return Err(StorageError::SequenceViolation);
        }
        if new_state.height != blk.header.height {
            return Err(StorageError::HeightMismatch);
        }
        let sk = state_key_bytes(height);
        let ck = cproof_key_bytes(height);
        proof {
            lemma_state_cproof_keys_differ(height as nat);
        }
        let encoding = new_state.partial_encoding.clone();
        self.metadata.insert(sk, encoding);
        self.metadata.insert(ck, cproof);
        let next = new_state.next_state();
        self.highest = new_state;
        self.mempool.rebase(next);
        Ok(())
    }

    /// Records the highest state as the one last flushed to disk.
    pub fn record_last_confirmed(&mut self)
        requires
            old(self).wf(),
        ensures
            final(self).wf(),
            final(self).highest_spec() == old(self).highest_spec(),
            final(self).mempool_spec() == old(self).mempool_spec(),
            final(self).metadata_spec().get_spec(last_confirmed_key()) == Some(old(self).highest_spec().encoding),
            forall|q: Seq<u8>| q != last_confirmed_key()
                ==> final(self).metadata_spec().get_spec(q) == old(self).metadata_spec().get_spec(q),
    {
        let k = last_confirmed_key_bytes();
        let v = self.highest.partial_encoding.clone();
        self.metadata.insert(k, v);
    }
}

/// The value of little-endian bytes.
pub open spec fn le_value(b: Seq<u8>) -> nat
    decreases b.len(),
{
    if b.len() == 0 {
        0
    } else {
        b[0] as nat + 256 * le_value(b.drop_first())
    }
}

/// The `k` low bytes of `n`, least significant first.
pub open spec fn le_bytes(n: nat, k: nat) -> Seq<u8>
    decreases k,
{
    if k == 0 {
        Seq::empty()
    } else {
        seq![(n % 256) as u8] + le_bytes(n / 256, (k - 1) as nat)
    }
}

/// `256` to the power `k`.
pub open spec fn byte_base(k: nat) -> nat
    decreases k,
{
    if k == 0 {
        1
    } else {
        256 * byte_base((k - 1) as nat)
    }
}

/// The variable-length form of an integer: one byte up to 250, else a tag
/// (251, 252, 253) and the value in 2, 4 or 8 little-endian bytes.
pub open spec fn varint_of(n: u64) -> Seq<u8> {
    if n <= 250 {
        seq![n as u8]
    } else if n <= 0xffff {
        seq![251u8] + le_bytes(n as nat, 2)
    } else if n <= 0xffff_ffff {
        seq![252u8] + le_bytes(n as nat, 4)
    } else {
        seq![253u8] + le_bytes(n as nat, 8)
    }
}

/// The serialized form of a trust checkpoint: the height as a variable-length
/// integer, then the 32 bytes of the header hash.
pub open spec fn trusted_encoding(height: u64, hash: Seq<u8>) -> Seq<u8> {
    varint_of(height) + hash
}

/// The number of value bytes that follow a variable-length tag; `-1` for a
/// tag that is refused.
pub open spec fn varint_width(tag: u8) -> int {
    if tag <= 250 {
        0
    } else if tag == 251 {
        2
    } else if tag == 252 {
        4
    } else if tag == 253 {
        8
    } else {
        -1
    }
}

/// What reading bytes as a trust checkpoint gives: a variable-length height
/// and 32 hash bytes, with nothing after them.
pub open spec fn trusted_decoding(b: Seq<u8>) -> Option<(u64, Seq<u8>)> {
    if b.len() == 0 {
        None
    } else {
        let w = varint_width(b[0]);
        if w < 0 || b.len() != 1 + w + 32 {
            None
        } else {
            let v: nat = if w == 0 {
                b[0] as nat
            } else {
                le_value(b.subrange(1, 1 + w))
            };
            Some((v as u64, b.subrange(1 + w, 1 + w + 32)))
        }
    }
}

proof fn lemma_le_round_trip(n: nat, k: nat)
    requires
        n < byte_base(k),
    ensures
        le_bytes(n, k).len() == k,
        le_value(le_bytes(n, k)) == n,
    decreases k,
{
    if k > 0 {
        let q = n / 256;
        assert(q < byte_base((k - 1) as nat)) by (nonlinear_arith)
            requires
                n < 256 * byte_base((k - 1) as nat),
                q == n / 256,
        ;
        lemma_le_round_trip(q, (k - 1) as nat);
        let b = le_bytes(n, k);
        assert(b.drop_first() =~= le_bytes(q, (k - 1) as nat));
        assert(n == n % 256 + 256 * q) by (nonlinear_arith)
            requires
                q == n / 256,
        ;
    }
}

/// Reading back the serialized form of a trust checkpoint gives the
/// checkpoint.
pub proof fn lemma_trusted_round_trip(height: u64, hash: Seq<u8>)
    requires
        hash.len() == 32,
    ensures
        trusted_decoding(trusted_encoding(height, hash)) == Some((height, hash)),
{
    assert(byte_base(0) == 1);
    assert(byte_base(1) == 256);
    assert(byte_base(2) == 65536);
    assert(byte_base(3) == 16777216);
    assert(byte_base(4) == 4294967296);
    assert(byte_base(5) == 1099511627776);
    assert(byte_base(6) == 281474976710656);
    assert(byte_base(7) == 72057594037927936);
    assert(byte_base(8) == 18446744073709551616);
    let e = trusted_encoding(height, hash);
    if height <= 250 {
        assert(e.subrange(1, 33) =~= hash);
    } else if height <= 0xffff {
        lemma_le_round_trip(height as nat, 2);
        assert(e.subrange(1, 3) =~= le_bytes(height as nat, 2));
        assert(e.subrange(3, 35) =~= hash);
    } else if height <= 0xffff_ffff {
        lemma_le_round_trip(height as nat, 4);
        assert(e.subrange(1, 5) =~= le_bytes(height as nat, 4));
        assert(e.subrange(5, 37) =~= hash);
    } else {
        lemma_le_round_trip(height as nat, 8);
        assert(e.subrange(1, 9) =~= le_bytes(height as nat, 8));
        assert(e.subrange(9, 41) =~= hash);
    }
}

/// Relies on `stdcode::serialize` of a `(u64, tmelcrypt::HashVal)` pair:
/// bincode with variable-length integers, little-endian, writes the height
/// in its variable-length form and then the 32 hash bytes, into a `Vec` with
/// no size limit, so it never fails.
#[verifier::external_body]
fn encode_trusted(height: u64, hash: &HashVal) -> (r: Option<Vec<u8>>)
    ensures
        r is Some,
        r matches Some(v) ==> v@ == trusted_encoding(height, hash@),
{
    stdcode::serialize(&(height, tmelcrypt::HashVal(hash.0))).ok()
}

/// Relies on `stdcode::deserialize` into a `(u64, tmelcrypt::HashVal)` pair:
/// bincode reads a variable-length height (tags 254 and 255 are refused),
/// then 32 bytes, and refuses bytes left over.
#[verifier::external_body]
fn decode_trusted(b: &[u8]) -> (r: Option<(u64, HashVal)>)
    ensures
        match r {
            Some(p) => trusted_decoding(b@) == Some((p.0, p.1@)),
            None => trusted_decoding(b@) is None,
        },
{
    stdcode::deserialize::<(u64, tmelcrypt::HashVal)>(b).ok().map(|p| (p.0, HashVal(p.1.0)))
}

impl NodeStorage {
    /// Stores the trust checkpoint of a network, keyed by the network
    /// identifier's serialized bytes `netid`.
    pub fn set_trusted(&mut self, netid: &[u8], trusted: TrustedHeight)
        requires
            old(self).wf(),
        ensures
            final(self).wf(),
            final(self).highest_spec() == old(self).highest_spec(),
            final(self).mempool_spec() == old(self).mempool_spec(),
            final(self).metadata_spec().get_spec(netid@) == Some(trusted_encoding(trusted.height, trusted.header_hash@)),
            forall|q: Seq<u8>| q != netid@
                ==> final(self).metadata_spec().get_spec(q) == old(self).metadata_spec().get_spec(q),
    {
        match encode_trusted(trusted.height, &trusted.header_hash) {
            Some(v) => {
                self.metadata.insert(copy_bytes(netid), v);
            },
            None => {
                assert(false);
            },
        }
    }

    /// The trust checkpoint stored for a network, if any.
    pub fn get_trusted(&self, netid: &[u8]) -> (r: Result<Option<TrustedHeight>, StorageError>)
        ensures
            match self.metadata_spec().get_spec(netid@) {
                None => r == Ok::<Option<TrustedHeight>, StorageError>(None),
                Some(b) => match trusted_decoding(b) {
                    None => r == Err::<Option<TrustedHeight>, StorageError>(StorageError::DecodeFailure),
                    Some(p) => r matches Ok(Some(t)) && t.height == p.0 && t.header_hash@ == p.1,
                },
            },
    {
        match self.metadata.get(netid) {
            None => Ok(None),
            Some(b) => match decode_trusted(b.as_slice()) {
                None => Err(StorageError::DecodeFailure),
                Some(p) => Ok(Some(TrustedHeight { height: p.0, header_hash: p.1 })),
            },
        }
    }
}

/// The partial encoding of the state last flushed to disk, if any.
pub fn stored_last_confirmed(metadata: &Metadata) -> (r: Option<Vec<u8>>)
    ensures
        match r {
            Some(v) => metadata.get_spec(last_confirmed_key()) == Some(v@),
            None => metadata.get_spec(last_confirmed_key()) is None,
        },
{
    let k = last_confirmed_key_bytes();
    metadata.get(k.as_slice())
}

proof fn lemma_state_cproof_keys_differ(h: nat)
    ensures
        state_key(h) != cproof_key(h),
{
    assert(state_key(h)[0] != cproof_key(h)[0]);
}

} // verus!
