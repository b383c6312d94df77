//! Fetching one block from one peer: the decisions of the protocol, driven
//! by whoever performs the requests.

use crate::block::{AbbreviatedBlock, Block, BlockHeader};
use crate::hash::{encode_hash, hash_single, single_hash_of, HashVal};
use vstd::prelude::*;

verus! {

/// How many transaction fetches may be in flight at once.
pub const TX_FETCH_LIMIT: usize = 20;

/// Why a block fetch failed.
#[derive(Debug, Clone, Copy, PartialEq, Eq, Structural)]
pub enum SyncError {
    /// The peer answered for another height than the one asked for.
    ProtocolViolation,
    /// A request took longer than its deadline.
    Timeout,
    /// A transaction's bytes could not be decoded.
    DecodeFailure,
    /// A response came for a transaction that was not requested.
    UnexpectedResponse,
    /// The block was asked for before every transaction was in.
    Incomplete,
}

/// Where one transaction of the block stands.
#[derive(Debug)]
pub enum Slot {
    /// Its serialized bytes are here.
    Have(Vec<u8>),
    /// Not known locally and not requested yet.
    Missing,
    /// Requested from the peer, not answered yet.
    Requested,
}

/// 0 for a slot whose transaction is here, 1 for a missing one, 2 for a requested one.
pub open spec fn kind_of(s: Slot) -> int {
    match s {
        Slot::Have(_) => 0,
        Slot::Missing => 1,
        Slot::Requested => 2,
    }
}

/// The number of slots of kind `k`.
pub open spec fn count_kind(s: Seq<Slot>, k: int) -> nat
    decreases s.len(),
{
    if s.len() == 0 {
        0
    } else {
        count_kind(s.drop_last(), k) + if kind_of(s.last()) == k {
            1nat
        } else {
            0nat
        }
    }
}

proof fn lemma_count_update(s: Seq<Slot>, i: int, x: Slot, k: int)
    requires
        0 <= i < s.len(),
    ensures
        count_kind(s.update(i, x), k) + (if kind_of(s[i]) == k {
            1int
        } else {
            0int
        }) == count_kind(s, k) + (if kind_of(x) == k {
            1int
        } else {
            0int
        }),
    decreases s.len(),
{
    let t = s.update(i, x);
    if i < s.len() - 1 {
        assert(t.drop_last() =~= s.drop_last().update(i, x));
        lemma_count_update(s.drop_last(), i, x, k);
    } else {
        assert(t.drop_last() =~= s.drop_last());
    }
}

proof fn lemma_count_zero(s: Seq<Slot>, k: int)
    requires
        forall|i: int| 0 <= i < s.len() ==> kind_of(#[trigger] s[i]) != k,
    ensures
        count_kind(s, k) == 0,
    decreases s.len(),
{
    if s.len() > 0 {
        lemma_count_zero(s.drop_last(), k);
    }
}

proof fn lemma_count_positive(s: Seq<Slot>, k: int, i: int)
    requires
        0 <= i < s.len(),
        kind_of(s[i]) == k,
    ensures
        count_kind(s, k) > 0,
    decreases s.len(),
{
    if i < s.len() - 1 {
        lemma_count_positive(s.drop_last(), k, i);
    }
}

/// One block being fetched: the peer's abbreviated block for the height that
/// was asked for, and where each of its transactions stands.
pub struct BlockFetch {
    abbr: AbbreviatedBlock,
    cproof: Vec<u8>,
    slots: Vec<Slot>,
    cursor: usize,
    in_flight: usize,
}

impl BlockFetch {
    /// Where each transaction stands, in the block's order.
    pub closed spec fn slots_spec(&self) -> Seq<Slot> {
        self.slots@
    }

    /// The hashes of the block's transactions, in order.
    pub closed spec fn txhashes_spec(&self) -> Seq<Seq<u8>> {
        self.abbr.txhashes@.map_values(|h: HashVal| h@)
    }

    /// The height of the block.
    pub closed spec fn height_spec(&self) -> u64 {
        self.abbr.header.height
    }

    /// The header of the block.
    pub closed spec fn header_spec(&self) -> BlockHeader {
        self.abbr.header
    }

    /// The proposer action of the block.
    pub closed spec fn proposer_action_spec(&self) -> Vec<u8> {
        self.abbr.proposer_action
    }

    /// The consensus proof of the block.
    pub closed spec fn cproof_spec(&self) -> Vec<u8> {
        self.cproof
    }

    /// The number of transaction requests in flight.
    pub open spec fn in_flight_spec(&self) -> nat {
        count_kind(self.slots_spec(), 2)
    }

    /// The number of transactions still to request.
    pub open spec fn missing_spec(&self) -> nat {
        count_kind(self.slots_spec(), 1)
    }

    /// One slot per transaction, and never more requests in flight than the limit.
    pub closed spec fn wf(&self) -> bool {
        &&& self.slots@.len() == self.abbr.txhashes@.len()
        &&& self.cursor <= self.slots@.len()
        &&& forall|j: int| 0 <= j < self.cursor ==> !(#[trigger] self.slots@[j] is Missing)
        &&& self.in_flight == count_kind(self.slots@, 2)
        &&& self.in_flight <= TX_FETCH_LIMIT
    }

    /// Starts fetching the block at `height` from the peer's answer `abbr` and
    /// `cproof`. Fails with `ProtocolViolation` when the answer is for another
    /// height; otherwise every transaction starts out missing.
    pub fn start(height: u64, abbr: AbbreviatedBlock, cproof: Vec<u8>) -> (r: Result<BlockFetch, SyncError>)
        ensures
            abbr.header.height != height ==> r == Err::<BlockFetch, SyncError>(SyncError::ProtocolViolation),
            abbr.header.height == height ==> r is Ok,
            r matches Ok(f) ==> {
                &&& f.wf()
                &&& f.height_spec() == height
                &&& f.header_spec() == abbr.header
                &&& f.proposer_action_spec() == abbr.proposer_action
                &&& f.cproof_spec() == cproof
                &&& f.txhashes_spec() == abbr.txhashes@.map_values(|h: HashVal| h@)
                &&& f.slots_spec() == Seq::new(abbr.txhashes@.len(), |_i: int| Slot::Missing)
                &&& f.in_flight_spec() == 0
            },
    {
        if abbr.header.height != height {
            return Err(SyncError::ProtocolViolation);
        }
        let n = abbr.txhashes.len();
        let mut slots: Vec<Slot> = Vec::new();
        while slots.len() < n
            invariant
                slots@.len() <= n,
                forall|j: int| 0 <= j < slots@.len() ==> #[trigger] slots@[j] == Slot::Missing,
            decreases n - slots@.len(),
        {
            slots.push(Slot::Missing);
        }
        let f = BlockFetch { abbr, cproof, slots, cursor: 0, in_flight: 0 };
        proof {
            assert(f.slots@ =~= Seq::new(n as nat, |_i: int| Slot::Missing));
            lemma_count_zero(f.slots@, 2);
        }
        Ok(f)
    }

    /// The hashes of the block's transactions, in order.
    pub fn txhashes(&self) -> (r: &Vec<HashVal>)
        ensures
            r@.map_values(|h: HashVal| h@) == self.txhashes_spec(),
    {
        &self.abbr.txhashes
    }

    /// Takes what the local cache knew: `cached` holds, for each transaction
    /// hash in order, the transaction if the cache had it. A transaction still
    /// missing becomes present when the cache had it; every other slot stays.
    pub fn fill_cached(&mut self, cached: Vec<Option<Vec<u8>>>)
        requires
            old(self).wf(),
            cached@.len() == old(self).txhashes_spec().len(),
        ensures
            final(self).wf(),
            final(self).height_spec() == old(self).height_spec(),
            final(self).header_spec() == old(self).header_spec(),
            final(self).proposer_action_spec() == old(self).proposer_action_spec(),
            final(self).cproof_spec() == old(self).cproof_spec(),
            final(self).txhashes_spec() == old(self).txhashes_spec(),
            final(self).in_flight_spec() == old(self).in_flight_spec(),
            final(self).slots_spec() == Seq::new(
                old(self).slots_spec().len(),
                |i: int|
                    if old(self).slots_spec()[i] is Missing && cached@[i] is Some {
                        Slot::Have(cached@[i].unwrap())
                    } else {
                        old(self).slots_spec()[i]
                    },
            ),
            (forall|i: int| 0 <= i < cached@.len() ==> (#[trigger] cached@[i]) is Some)
                ==> final(self).missing_spec() == 0,
    {
        let ghost c0 = cached@;
        let ghost s0 = self.slots@;
        let ghost target = Seq::new(
            s0.len(),
            |i: int|
                if s0[i] is Missing && c0[i] is Some {
                    Slot::Have(c0[i].unwrap())
                } else {
                    s0[i]
                },
        );
        let mut cached = cached;
        while cached.len() > 0
            invariant
                self.wf(),
                self.abbr == old(self).abbr,
                self.cproof == old(self).cproof,
                self.slots@.len() == s0.len(),
                c0.len() == s0.len(),
                cached@.len() <= c0.len(),
                target.len() == s0.len(),
                forall|j: int|
                    0 <= j < s0.len() ==> #[trigger] target[j] == if s0[j] is Missing && c0[j] is Some {
                        Slot::Have(c0[j].unwrap())
                    } else {
                        s0[j]
                    },
                self.in_flight == old(self).in_flight,
                cached@ == c0.subrange(0, cached@.len() as int),
                forall|j: int| 0 <= j < cached@.len() ==> #[trigger] self.slots@[j] == s0[j],
                forall|j: int| cached@.len() <= j < s0.len() ==> #[trigger] self.slots@[j] == target[j],
            decreases cached.len(),
        {
            let i = cached.len() - 1;
            let c = cached.pop().unwrap();
            assert(c == c0[i as int]);
            assert(self.slots@[i as int] == s0[i as int]);
            match c {
                Some(tx) => {
                    if let Slot::Missing = self.slots[i] {
                        let ghost s = self.slots@;
                        let ghost t = tx;
                        self.slots.set(i, Slot::Have(tx));
                        proof {
                            lemma_count_update(s, i as int, Slot::Have(t), 2);
                            assert(self.slots@[i as int] == target[i as int]);
                        }
                    }
                },
                None => {},
            }
        }
        proof {
            assert(self.slots@ =~= target);
            if forall|i: int| 0 <= i < c0.len() ==> (#[trigger] c0[i]) is Some {
                assert forall|i: int| 0 <= i < target.len() implies kind_of(#[trigger] target[i]) != 1 by {
                    assert(c0[i] is Some);
                }
                lemma_count_zero(target, 1);
            }
        }
    }

    /// The next transaction to request, as its index in the block and its
    /// hash, marked as requested. `None` when the limit of requests in flight
    /// is reached or nothing is left to request.
    pub fn next_request(&mut self) -> (r: Option<(usize, HashVal)>)
        requires
            old(self).wf(),
        ensures
            final(self).wf(),
            final(self).height_spec() == old(self).height_spec(),
            final(self).header_spec() == old(self).header_spec(),
            final(self).proposer_action_spec() == old(self).proposer_action_spec(),
            final(self).cproof_spec() == old(self).cproof_spec(),
            final(self).txhashes_spec() == old(self).txhashes_spec(),
            match r {
                Some((i, h)) => {
                    &&& i < old(self).slots_spec().len()
                    &&& old(self).slots_spec()[i as int] is Missing
                    &&& final(self).slots_spec() == old(self).slots_spec().update(i as int, Slot::Requested)
                    &&& h@ == old(self).txhashes_spec()[i as int]
                    &&& final(self).in_flight_spec() == old(self).in_flight_spec() + 1
                    &&& final(self).missing_spec() + 1 == old(self).missing_spec()
                },
                None => {
                    &&& final(self).slots_spec() == old(self).slots_spec()
                    &&& (old(self).in_flight_spec() == TX_FETCH_LIMIT || old(self).missing_spec() == 0)
                },
            },
    {
        if self.in_flight >= TX_FETCH_LIMIT {
            return None;
        }
        while self.cursor < self.slots.len()
            invariant
                self.wf(),
                self.slots@ == old(self).slots@,
                self.abbr == old(self).abbr,
                self.cproof == old(self).cproof,
                self.in_flight < TX_FETCH_LIMIT,
            decreases self.slots@.len() - self.cursor,
        {
            let i = self.cursor;
            if let Slot::Missing = self.slots[i] {
                let ghost s = self.slots@;
                self.slots.set(i, Slot::Requested);
                proof {
                    lemma_count_update(s, i as int, Slot::Requested, 2);
                    lemma_count_update(s, i as int, Slot::Requested, 1);
                }
                self.in_flight = self.in_flight + 1;
                self.cursor = i + 1;
                return Some((i, self.abbr.txhashes[i]));
            }
            self.cursor = i + 1;
        }
        proof {
            lemma_count_zero(self.slots@, 1);
        }
        None
    }

    /// Hands in the bytes of the transaction at index `i`, which must have
    /// been requested and not answered yet; `UnexpectedResponse` otherwise,
    /// and then nothing changes. The bytes are taken as the peer sent them:
    /// checking them against the block's transaction root is up to the caller.
    pub fn complete(&mut self, i: usize, tx: Vec<u8>) -> (r: Result<(), SyncError>)
        requires
            old(self).wf(),
        ensures
            final(self).wf(),
            final(self).height_spec() == old(self).height_spec(),
            final(self).header_spec() == old(self).header_spec(),
            final(self).proposer_action_spec() == old(self).proposer_action_spec(),
            final(self).cproof_spec() == old(self).cproof_spec(),
            final(self).txhashes_spec() == old(self).txhashes_spec(),
            (i < old(self).slots_spec().len() && old(self).slots_spec()[i as int] is Requested) ==> {
                &&& r is Ok
                &&& final(self).slots_spec() == old(self).slots_spec().update(i as int, Slot::Have(tx))
                &&& final(self).in_flight_spec() + 1 == old(self).in_flight_spec()
                &&& final(self).missing_spec() == old(self).missing_spec()
            },
            !(i < old(self).slots_spec().len() && old(self).slots_spec()[i as int] is Requested) ==> {
                &&& r == Err::<(), SyncError>(SyncError::UnexpectedResponse)
                &&& final(self).slots_spec() == old(self).slots_spec()
            },
    {
        if i >= self.slots.len() {
            return Err(SyncError::UnexpectedResponse);
        }
        if let Slot::Requested = self.slots[i] {
            let ghost s = self.slots@;
            let ghost t = tx;
            proof {
                lemma_count_positive(s, 2, i as int);
            }
            self.slots.set(i, Slot::Have(tx));
            proof {
                lemma_count_update(s, i as int, Slot::Have(t), 2);
                lemma_count_update(s, i as int, Slot::Have(t), 1);
            }
            self.in_flight = self.in_flight - 1;
            Ok(())
        } else {
            Err(SyncError::UnexpectedResponse)
        }
    }

    /// Reassembles the block, its transactions in the order of the
    /// abbreviated block, with its consensus proof. `Incomplete`, with the
    /// fetch handed back, while a transaction is missing or in flight.
    pub fn finish(self) -> (r: Result<(Block, Vec<u8>), (BlockFetch, SyncError)>)
        requires
            self.wf(),
        ensures
            (forall|i: int| 0 <= i < self.slots_spec().len() ==> (#[trigger] self.slots_spec()[i]) is Have) ==> r is Ok,
            match r {
                Ok((b, p)) => {
                    &&& b.header == self.header_spec()
                    &&& b.header.height == self.height_spec()
                    &&& b.proposer_action == self.proposer_action_spec()
                    &&& p == self.cproof_spec()
                    &&& b.transactions@.len() == self.slots_spec().len()
                    &&& forall|i: int| 0 <= i < b.transactions@.len() ==>
                        self.slots_spec()[i] == Slot::Have(#[trigger] b.transactions@[i])
                },
                Err((f, e)) => f == self && e == SyncError::Incomplete,
            },
    {
        let mut j: usize = 0;
        while j < self.slots.len()
            invariant
                0 <= j <= self.slots@.len(),
                forall|k: int| 0 <= k < j ==> (#[trigger] self.slots@[k]) is Have,
            decreases self.slots@.len() - j,
        {
            match &self.slots[j] {
                Slot::Have(_) => {},
                _ => {
                    return Err((self, SyncError::Incomplete));
                },
            }
            j = j + 1;
        }
        let ghost s0 = self.slots@;
        let BlockFetch { abbr, cproof, slots, cursor: _, in_flight: _ } = self;
        let mut slots = slots;
        let mut rev: Vec<Vec<u8>> = Vec::new();
        let n = slots.len();
        while slots.len() > 0
            invariant
                n == s0.len(),
                slots@ == s0.subrange(0, slots@.len() as int),
                rev@.len() + slots@.len() == n,
                forall|k: int| 0 <= k < n ==> (#[trigger] s0[k]) is Have,
                forall|k: int| 0 <= k < rev@.len() ==> s0[n - 1 - k] == Slot::Have(#[trigger] rev@[k]),
            decreases slots.len(),
        {
            let s = slots.pop().unwrap();
            match s {
                Slot::Have(t) => {
                    rev.push(t);
                },
                _ => {
                    assert(false);
                },
            }
        }
        let mut txs: Vec<Vec<u8>> = Vec::new();
        while rev.len() > 0
            invariant
                n == s0.len(),
                rev@.len() + txs@.len() == n,
                forall|k: int| 0 <= k < rev@.len() ==> s0[n - 1 - k] == Slot::Have(#[trigger] rev@[k]),
                forall|k: int| 0 <= k < txs@.len() ==> s0[k] == Slot::Have(#[trigger] txs@[k]),
            decreases rev.len(),
        {
            let t = rev.pop().unwrap();
            txs.push(t);
        }
        let b = Block { header: abbr.header, transactions: txs, proposer_action: abbr.proposer_action };
        Ok((b, cproof))
    }
}

/// The key under which the peer proves a transaction: the hash of the
/// serialized transaction hash, which is its 32 bytes as they are.
pub fn branch_key(txh: &HashVal) -> (r: HashVal)
    ensures
        r@ == single_hash_of(txh@),
{
    match encode_hash(txh) {
        Some(b) => hash_single(b.as_slice()),
        None => {
            assert(false);
            HashVal::zero()
        },
    }
}

/// With nothing left to request, asking for the next request asks for
/// nothing: a block whose transactions the cache all knew is fetched without
/// a single transaction request.
pub proof fn lemma_nothing_missing_no_request(f: &BlockFetch)
    requires
        f.wf(),
        f.missing_spec() == 0,
    ensures
        forall|i: int| 0 <= i < f.slots_spec().len() ==> !(#[trigger] f.slots_spec()[i] is Missing),
{
    assert forall|i: int| 0 <= i < f.slots_spec().len() implies !(#[trigger] f.slots_spec()[i] is Missing) by {
        if f.slots_spec()[i] is Missing {
            lemma_count_positive(f.slots_spec(), 1, i);
        }
    }
}

/// Never more transaction fetches are in flight than the limit.
pub proof fn lemma_in_flight_bounded(f: &BlockFetch)
    requires
        f.wf(),
    ensures
        f.in_flight_spec() <= TX_FETCH_LIMIT,
{
}

} // verus!
