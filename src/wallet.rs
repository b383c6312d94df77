//! What the wallet client reports, and the handle it manages wallets through.

use std::collections::BTreeMap;
use vstd::prelude::*;

verus! {

/// A freshly created wallet: its name, address and secret key.
#[derive(Debug, Clone)]
pub struct CreatedWalletInfo {
    pub name: String,
    pub address: String,
    pub secret: String,
}

/// The outcome of sending coins.
#[derive(Debug, Clone, Copy)]
pub struct SendCoinsInfo;

/// The outcome of a deposit.
#[derive(Debug, Clone, Copy)]
pub struct DepositInfo;

/// The outcome of a withdrawal.
#[derive(Debug, Clone, Copy)]
pub struct WithdrawInfo;

/// The outcome of a swap.
#[derive(Debug, Clone, Copy)]
pub struct SwapInfo;

/// The coins of a wallet.
#[derive(Debug, Clone, Copy)]
pub struct CoinsInfo;

/// The balance of a wallet.
#[derive(Debug, Clone, Copy)]
pub struct BalanceInfo;

/// The address of each stored wallet, by name.
#[derive(Debug)]
pub struct WalletsInfo {
    pub wallet_addrs_by_name: BTreeMap<String, String>,
}

/// Something the client can show as a table of labelled values.
pub trait Printable {
    /// The rows to show, each a label and a value.
    fn rows(&self) -> Vec<(String, String)>;
}

impl Printable for CreatedWalletInfo {
    fn rows(&self) -> (r: Vec<(String, String)>)
        ensures
            r@.len() == 3,
            r@[0].0@ == ">> New data:"@,
            r@[0].1@ == self.name@,
            r@[1].0@ == ">> Address:"@,
            r@[1].1@ == self.address@,
            r@[2].0@ == ">> Secret:"@,
            r@[2].1@ == self.secret@,
    {
        let mut r: Vec<(String, String)> = Vec::new();
        r.push((">> New data:".to_owned(), self.name.clone()));
        r.push((">> Address:".to_owned(), self.address.clone()));
        r.push((">> Secret:".to_owned(), self.secret.clone()));
        r
    }
}

/// Where the client runs: the node it talks to and the wallet database it keeps.
#[derive(Debug, Clone)]
pub struct ExecutionContext {
    pub host: String,
    pub database: String,
}

/// Creates, loads and unlocks wallets within an execution context.
pub struct WalletManager {
    context: ExecutionContext,
}

impl WalletManager {
    /// The context the manager works in.
    pub closed spec fn context_spec(&self) -> ExecutionContext {
        self.context
    }

    /// A manager for `context`.
    pub fn new(context: ExecutionContext) -> (r: WalletManager)
        ensures
            r.context_spec() == context,
    {
        WalletManager { context }
    }

    /// The context the manager works in.
    pub fn context(&self) -> (r: &ExecutionContext)
        ensures
            *r == self.context_spec(),
    {
        &self.context
    }
}

} // verus!
