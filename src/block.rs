//! Blocks, whole and abbreviated.

use crate::hash::HashVal;
use vstd::prelude::*;

verus! {

/// A block header: its height and its serialized form.
#[derive(Debug, Clone)]
pub struct BlockHeader {
    pub height: u64,
    pub encoding: Vec<u8>,
}

/// A block's header and the hashes of its transactions, without their bodies.
#[derive(Debug)]
pub struct AbbreviatedBlock {
    pub header: BlockHeader,
    pub txhashes: Vec<HashVal>,
    pub proposer_action: Vec<u8>,
}

/// A full block; transactions and proposer action in serialized form.
#[derive(Debug)]
pub struct Block {
    pub header: BlockHeader,
    pub transactions: Vec<Vec<u8>>,
    pub proposer_action: Vec<u8>,
}

} // verus!
