//! Authenticated state storage and block synchronisation for a full node.

pub mod blksync;
pub mod block;
pub mod bytes;
pub mod hash;
pub mod merk;
pub mod storage;
pub mod wallet;
