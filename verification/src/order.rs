//! Orders, sides, trade records, errors and the priority relation between
//! resting orders.

use crate::key::Pubkey;
use vstd::prelude::*;

verus! {

/// The direction of an order.
#[derive(Clone, Copy, Debug, PartialEq, Eq, Structural)]
pub enum Side {
    Buy,
    Sell,
}

impl Side {
    /// The side that an order of this side trades against.
    pub open spec fn spec_opposite(self) -> Side {
        match self {
            Side::Buy => Side::Sell,
            Side::Sell => Side::Buy,
        }
    }

    /// The side that an order of this side trades against.
    #[verifier::when_used_as_spec(spec_opposite)]
    pub fn opposite(self) -> (r: Side)
        ensures
            r == self.spec_opposite(),
    {
        match self {
            Side::Buy => Side::Sell,
            Side::Sell => Side::Buy,
        }
    }
}

/// A limit order: who placed it, at which price, how much of it is still
/// unfilled, and the identifier the book gave it when it came to rest.
#[derive(Clone, Copy, Debug, PartialEq, Eq)]
pub struct Order {
    pub owner: Pubkey,
    pub price: u64,
    pub quantity: u64,
    pub order_id: u64,
}

/// Whether a taker on `side` with limit price `limit` can trade against a
/// resting order of the opposite side priced at `resting`: a buyer pays at
/// most its limit, a seller accepts no less than its limit.
pub open spec fn crosses(side: Side, limit: u64, resting: u64) -> bool {
    match side {
        Side::Buy => limit >= resting,
        Side::Sell => limit <= resting,
    }
}

/// Price-time priority among the resting orders of one side: `a` is matched
/// before `b` when its price is strictly better (higher for bids, lower for
/// asks), or when the prices are equal and `a` came to rest first.
pub open spec fn outranks(side: Side, a: Order, b: Order) -> bool {
    let better = match side {
        Side::Buy => a.price > b.price,
        Side::Sell => a.price < b.price,
    };
    better || (a.price == b.price && a.order_id < b.order_id)
}

impl Order {
    /// An order may rest in a book only while its price and its remaining
    /// quantity are positive.
    pub open spec fn live(self) -> bool {
        self.price > 0 && self.quantity > 0
    }

    /// The same order with another remaining quantity.
    pub open spec fn with_quantity(self, quantity: u64) -> Order {
        Order { quantity, ..self }
    }

    /// Whether this order is matched before `other` on `side`.
    pub fn has_priority_over(&self, other: &Order, side: Side) -> (r: bool)
        ensures
            r == outranks(side, *self, *other),
    {
        let better = match side {
            Side::Buy => self.price > other.price,
            Side::Sell => self.price < other.price,
        };
        better || (self.price == other.price && self.order_id < other.order_id)
    }
}

/// Whether a taker on `side` with limit price `limit` can trade against a
/// resting order priced at `resting`.
pub fn price_crosses(side: Side, limit: u64, resting: u64) -> (r: bool)
    ensures
        r == crosses(side, limit, resting),
{
    match side {
        Side::Buy => limit >= resting,
        Side::Sell => limit <= resting,
    }
}

/// The record of one fill, published once both of its legs have moved.
#[derive(Clone, Copy, Debug, PartialEq, Eq)]
pub struct TradeEvent {
    pub taker: Pubkey,
    pub maker: Pubkey,
    pub base_mint: Pubkey,
    pub quote_mint: Pubkey,
    pub quantity: u64,
    pub price: u64,
}

/// Why a placement or a cancellation failed.
#[derive(Clone, Copy, Debug, PartialEq, Eq, Structural)]
pub enum DexError {
    /// The order to cancel rests on neither side of the book.
    OrderNotFound,
    /// The order to cancel belongs to another party.
    OrderNotOwned,
    /// The settlement account supplied for a maker is missing or is not the
    /// maker's.
    MakerAccountMismatch,
    /// A price times a quantity does not fit in 64 bits.
    CalculationError,
    /// The ledger refused a movement of funds.
    TransferError,
}

impl DexError {
    /// A sentence for the party that receives the error.
    pub fn message(&self) -> (text: &'static str)
        ensures
            text@ == match *self {
                DexError::OrderNotFound => "The specified order could not be found."@,
                DexError::OrderNotOwned => "You are not authorized to cancel this order."@,
                DexError::MakerAccountMismatch =>
                    "The provided maker account does not match the order owner."@,
                DexError::CalculationError =>
                    "An error occurred during a mathematical calculation."@,
                DexError::TransferError => "The ledger could not move the requested funds."@,
            },
    {
        match self {
            DexError::OrderNotFound => "The specified order could not be found.",
            DexError::OrderNotOwned => "You are not authorized to cancel this order.",
            DexError::MakerAccountMismatch =>
                "The provided maker account does not match the order owner.",
            DexError::CalculationError => "An error occurred during a mathematical calculation.",
            DexError::TransferError => "The ledger could not move the requested funds.",
        }
    }
}

} // verus!
