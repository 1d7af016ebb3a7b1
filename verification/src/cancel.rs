//! Cancelling a resting order.

use crate::book::{find, Orderbook};
use crate::key::Pubkey;
use crate::ledger::{Asset, Holder, Transfer};
use crate::model::{lemma_position_finds, lemma_remove_at_wf, Book};
use crate::order::{DexError, Order, Side};
use vstd::prelude::*;

verus! {

/// The party that asks for a cancellation.
#[derive(Clone, Copy, Debug)]
pub struct CancelOrder {
    pub owner: Pubkey,
}

/// The funds that custody holds for the resting order `o` of `side`, on
/// their way back to its owner: the full price of a bid in the quote asset,
/// or the quantity of an ask in the base asset.
pub open spec fn refund(side: Side, o: Order) -> Transfer {
    match side {
        Side::Buy => Transfer {
            asset: Asset::Quote,
            from: Holder::Custody,
            to: Holder::Party(o.owner),
            amount: (o.price * o.quantity) as u64,
        },
        Side::Sell => Transfer {
            asset: Asset::Base,
            from: Holder::Custody,
            to: Holder::Party(o.owner),
            amount: o.quantity,
        },
    }
}

impl Book {
    /// The side on which an order with identifier `id` rests, bids searched
    /// first, and that order.
    pub open spec fn locate(self, id: u64) -> Option<(Side, Order)> {
        match (self.resting(Side::Buy, id), self.resting(Side::Sell, id)) {
            (Some(o), _) => Some((Side::Buy, o)),
            (None, Some(o)) => Some((Side::Sell, o)),
            (None, None) => None,
        }
    }

    /// What `requester` gets for asking to cancel the order `id`: the
    /// refund to carry out, or the reason why nothing was cancelled.
    pub open spec fn cancel_result(self, requester: Pubkey, id: u64) -> Result<Transfer, DexError> {
        match self.locate(id) {
            None => Err(DexError::OrderNotFound),
            Some((side, o)) => if o.owner != requester {
                Err(DexError::OrderNotOwned)
            } else if side == Side::Buy && o.price * o.quantity > u64::MAX {
                Err(DexError::CalculationError)
            } else {
                Ok(refund(side, o))
            },
        }
    }

    /// The book after `requester` asked to cancel the order `id`: without
    /// that order if the request succeeds, unchanged if it fails.
    pub open spec fn cancel(self, requester: Pubkey, id: u64) -> Book {
        match self.locate(id) {
            Some((side, o)) if self.cancel_result(requester, id) is Ok => self.remove(side, id),
            _ => self,
        }
    }
}

/// Cancels the resting order `order_id` on behalf of `ctx.owner`.
///
/// On success the order is out of the book and the returned transfer gives
/// its locked funds back to its owner; the host carries it out. On failure
/// the book is unchanged.
pub fn cancel_order(book: &mut Orderbook, ctx: &CancelOrder, order_id: u64) -> (r: Result<
    Transfer,
    DexError,
>)
    requires
        old(book)@.wf(),
    ensures
        r == old(book)@.cancel_result(ctx.owner, order_id),
        final(book)@ == old(book)@.cancel(ctx.owner, order_id),
        final(book)@.wf(),
        r is Ok ==> !final(book)@.contains_id(order_id),
{
    proof {
        lemma_position_finds(book@.bids, order_id);
        lemma_position_finds(book@.asks, order_id);
    }
    let k = find(&book.bids, order_id);
    if k < book.bids.len() {
        let found = book.bids[k];
        if !(found.owner == ctx.owner) {
            return Err(DexError::OrderNotOwned);
        }
        let amount = match found.price.checked_mul(found.quantity) {
            Some(total) => total,
            None => {
                return Err(DexError::CalculationError);
            },
        };
        proof {
            lemma_remove_at_wf(book@, Side::Buy, k as int);
        }
        book.bids.remove(k);
        return Ok(
            Transfer {
                asset: Asset::Quote,
                from: Holder::Custody,
                to: Holder::Party(found.owner),
                amount,
            },
        );
    }
    let k = find(&book.asks, order_id);
    if k < book.asks.len() {
        let found = book.asks[k];
        if !(found.owner == ctx.owner) {
            return Err(DexError::OrderNotOwned);
        }
        proof {
            lemma_remove_at_wf(book@, Side::Sell, k as int);
        }
        book.asks.remove(k);
        return Ok(
            Transfer {
                asset: Asset::Base,
                from: Holder::Custody,
                to: Holder::Party(found.owner),
                amount: found.quantity,
            },
        );
    }
    Err(DexError::OrderNotFound)
}

} // verus!
