//! The instructions the engine hands to the custody ledger.
//!
//! The engine never touches balances. It names a movement of funds and the
//! host carries it out, all or nothing.

use crate::key::Pubkey;
use vstd::prelude::*;

verus! {

/// One of the two assets a book trades.
#[derive(Clone, Copy, Debug, PartialEq, Eq, Structural)]
pub enum Asset {
    /// The asset that quantities count.
    Base,
    /// The asset that prices count.
    Quote,
}

/// An end of a movement of funds.
#[derive(Clone, Copy, Debug, PartialEq, Eq)]
pub enum Holder {
    /// The book's pooled custody of the asset.
    Custody,
    /// The holding account of a party.
    Party(Pubkey),
}

/// A movement of `amount` units of `asset` from `from` to `to`.
#[derive(Clone, Copy, Debug, PartialEq, Eq)]
pub struct Transfer {
    pub asset: Asset,
    pub from: Holder,
    pub to: Holder,
    pub amount: u64,
}

} // verus!
