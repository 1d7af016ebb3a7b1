//! The stored order book and its operations.
//!
//! No operation here moves funds or checks who owns an order: that is the
//! matching engine's part.

use crate::key::Pubkey;
use crate::model::{
    lemma_insert_wf, lemma_pop_best_wf, lemma_position_finds, lemma_position_is, lemma_rank_is,
    lemma_remove_at_wf, position, rank, side_wf, Book,
};
use crate::order::{outranks, Order, Side};
use vstd::prelude::*;

verus! {

/// A book of resting orders for one pair of assets.
///
/// Each side holds its orders best first: highest price first among the bids,
/// lowest first among the asks, and the earlier order first among equal
/// prices.
#[derive(Clone, Debug)]
pub struct Orderbook {
    pub base_mint: Pubkey,
    pub quote_mint: Pubkey,
    pub bids: Vec<Order>,
    pub asks: Vec<Order>,
    pub order_id_counter: u64,
}

impl View for Orderbook {
    type V = Book;

    open spec fn view(&self) -> Book {
        Book {
            base_mint: self.base_mint,
            quote_mint: self.quote_mint,
            bids: self.bids@,
            asks: self.asks@,
            order_id_counter: self.order_id_counter,
        }
    }
}

/// The two assets that a new book is to trade.
#[derive(Clone, Copy, Debug)]
pub struct Initialize {
    pub base_mint: Pubkey,
    pub quote_mint: Pubkey,
}

/// Opens an empty book for the two assets.
pub fn initialize(ctx: Initialize) -> (book: Orderbook)
    ensures
        book@ == Book::empty(ctx.base_mint, ctx.quote_mint),
        book@.wf(),
{
    Orderbook {
        base_mint: ctx.base_mint,
        quote_mint: ctx.quote_mint,
        bids: Vec::new(),
        asks: Vec::new(),
        order_id_counter: 0,
    }
}

/// The place at which `order` comes to rest among `orders`.
fn slot(orders: &Vec<Order>, side: Side, order: &Order, counter: Ghost<u64>) -> (k: usize)
    requires
        side_wf(side, orders@, counter@),
    ensures
        k == rank(side, orders@, *order),
        k <= orders.len(),
{
    let mut k: usize = 0;
    while k < orders.len() && orders[k].has_priority_over(order, side)
        invariant
            k <= orders.len(),
            forall|j: int| 0 <= j < k ==> outranks(side, #[trigger] orders@[j], *order),
        decreases orders.len() - k,
    {
        k += 1;
    }
    proof {
        lemma_rank_is(side, orders@, counter@, *order, k as int);
    }
    k
}

/// The index of the first of `orders` that carries `order_id`, or their
/// number if none does.
pub(crate) fn find(orders: &Vec<Order>, order_id: u64) -> (k: usize)
    ensures
        k == position(orders@, order_id),
        k <= orders.len(),
{
    let mut k: usize = 0;
    while k < orders.len() && orders[k].order_id != order_id
        invariant
            k <= orders.len(),
            forall|j: int| 0 <= j < k ==> (#[trigger] orders@[j]).order_id != order_id,
        decreases orders.len() - k,
    {
        k += 1;
    }
    proof {
        lemma_position_is(orders@, order_id, k as int);
    }
    k
}

/// Whether `orders` are a well-formed side of a book whose counter stands
/// at `counter`.
fn side_is_valid(orders: &Vec<Order>, side: Side, counter: u64) -> (ok: bool)
    ensures
        ok == side_wf(side, orders@, counter),
{
    let n = orders.len();
    let mut i: usize = 0;
    while i < n
        invariant
            n == orders.len(),
            i <= n,
            forall|a: int|
                0 <= a < i ==> (#[trigger] orders@[a]).live() && orders@[a].order_id <= counter,
            forall|a: int, b: int|
                0 <= a < b < i ==> outranks(side, #[trigger] orders@[a], #[trigger] orders@[b])
                    && orders@[a].order_id != orders@[b].order_id,
        decreases n - i,
    {
        let o = orders[i];
        if o.price == 0 || o.quantity == 0 || o.order_id > counter {
            return false;
        }
        if i > 0 && !orders[i - 1].has_priority_over(&o, side) {
            return false;
        }
        let mut j: usize = 0;
        while j < i
            invariant
                j <= i,
                i < orders.len(),
                o == orders@[i as int],
                forall|b: int| 0 <= b < j ==> (#[trigger] orders@[b]).order_id != o.order_id,
            decreases i - j,
        {
            if orders[j].order_id == o.order_id {
                return false;
            }
            j += 1;
        }
        proof {
            assert forall|a: int| 0 <= a < i implies outranks(
                side,
                #[trigger] orders@[a],
                orders@[i as int],
            ) by {
                if a < i - 1 {
                    assert(outranks(side, orders@[a], orders@[i - 1]));
                }
            }
        }
        i += 1;
    }
    true
}

/// Whether no identifier occurs both among `bids` and among `asks`.
fn sides_are_disjoint(bids: &Vec<Order>, asks: &Vec<Order>) -> (ok: bool)
    ensures
        ok == (forall|i: int, j: int|
            0 <= i < bids@.len() && 0 <= j < asks@.len() ==> (#[trigger] bids@[i]).order_id != (
            #[trigger] asks@[j]).order_id),
{
    let mut i: usize = 0;
    while i < bids.len()
        invariant
            i <= bids.len(),
            forall|a: int, b: int|
                0 <= a < i && 0 <= b < asks@.len() ==> (#[trigger] bids@[a]).order_id != (
                #[trigger] asks@[b]).order_id,
        decreases bids.len() - i,
    {
        let id = bids[i].order_id;
        let k = find(asks, id);
        proof {
            lemma_position_finds(asks@, id);
        }
        if k < asks.len() {
            return false;
        }
        i += 1;
    }
    true
}

impl Orderbook {
    /// Whether the book is well formed: each side live, free of repeated
    /// identifiers and in price-time priority, no identifier on both sides,
    /// no identifier above the counter, and the best bid below the best ask.
    ///
    /// A book that was put together field by field, or read back from
    /// storage, is to pass this test before it serves a request.
    pub fn is_valid(&self) -> (ok: bool)
        ensures
            ok == self@.wf(),
    {
        if !side_is_valid(&self.bids, Side::Buy, self.order_id_counter) {
            return false;
        }
        if !side_is_valid(&self.asks, Side::Sell, self.order_id_counter) {
            return false;
        }
        if !sides_are_disjoint(&self.bids, &self.asks) {
            return false;
        }
        self.bids.len() == 0 || self.asks.len() == 0 || self.bids[0].price < self.asks[0].price
    }

    /// The highest price that a resting buy order bids, if any rests.
    pub fn best_bid(&self) -> (price: Option<u64>)
        ensures
            price == self@.best_price(Side::Buy),
    {
        if self.bids.len() > 0 {
            Some(self.bids[0].price)
        } else {
            None
        }
    }

    /// The lowest price that a resting sell order asks, if any rests.
    pub fn best_ask(&self) -> (price: Option<u64>)
        ensures
            price == self@.best_price(Side::Sell),
    {
        if self.asks.len() > 0 {
            Some(self.asks[0].price)
        } else {
            None
        }
    }

    /// The order of `side` that is matched first, if any rests.
    pub fn peek_best(&self, side: Side) -> (best: Option<Order>)
        ensures
            best == self@.best(side),
    {
        match side {
            Side::Buy => if self.bids.len() > 0 {
                Some(self.bids[0])
            } else {
                None
            },
            Side::Sell => if self.asks.len() > 0 {
                Some(self.asks[0])
            } else {
                None
            },
        }
    }

    /// Puts `order` to rest on `side`, behind every order that is matched
    /// before it and ahead of the others.
    pub fn insert(&mut self, side: Side, order: Order)
        requires
            old(self)@.wf(),
            old(self)@.admits(side, order),
        ensures
            final(self)@ == old(self)@.insert(side, order),
            final(self)@.wf(),
    {
        proof {
            lemma_insert_wf(self@, side, order);
        }
        match side {
            Side::Buy => {
                let k = slot(&self.bids, side, &order, Ghost(self.order_id_counter));
                self.bids.insert(k, order);
            },
            Side::Sell => {
                let k = slot(&self.asks, side, &order, Ghost(self.order_id_counter));
                self.asks.insert(k, order);
            },
        }
    }

    /// Takes the order of `side` that is matched first out of the book.
    pub fn pop_best(&mut self, side: Side) -> (best: Option<Order>)
        requires
            old(self)@.wf(),
        ensures
            best == old(self)@.best(side),
            best is Some ==> final(self)@ == old(self)@.pop_best(side),
            best is None ==> final(self)@ == old(self)@,
            final(self)@.wf(),
    {
        let none: Option<Order> = None;
        match side {
            Side::Buy => {
                if self.bids.len() == 0 {
                    return none;
                }
                proof {
                    lemma_pop_best_wf(self@, side);
                    assert(self.bids@.remove(0) =~= self.bids@.drop_first());
                }
                Some(self.bids.remove(0))
            },
            Side::Sell => {
                if self.asks.len() == 0 {
                    return none;
                }
                proof {
                    lemma_pop_best_wf(self@, side);
                    assert(self.asks@.remove(0) =~= self.asks@.drop_first());
                }
                Some(self.asks.remove(0))
            },
        }
    }

    /// Takes the order of `side` that carries `order_id` out of the book.
    /// Without such an order the book stays as it is.
    pub fn remove_by_id(&mut self, side: Side, order_id: u64) -> (removed: Option<Order>)
        requires
            old(self)@.wf(),
        ensures
            removed == old(self)@.resting(side, order_id),
            removed is Some ==> final(self)@ == old(self)@.remove(side, order_id),
            removed is Some ==> !final(self)@.contains_id(order_id),
            removed is None ==> final(self)@ == old(self)@,
            final(self)@.wf(),
    {
        let none: Option<Order> = None;
        proof {
            lemma_position_finds(self@.side(side), order_id);
        }
        match side {
            Side::Buy => {
                let k = find(&self.bids, order_id);
                if k == self.bids.len() {
                    return none;
                }
                proof {
                    lemma_remove_at_wf(self@, side, k as int);
                }
                Some(self.bids.remove(k))
            },
            Side::Sell => {
                let k = find(&self.asks, order_id);
                if k == self.asks.len() {
                    return none;
                }
                proof {
                    lemma_remove_at_wf(self@, side, k as int);
                }
                Some(self.asks.remove(k))
            },
        }
    }

    /// Issues the next order identifier: one more than the last.
    pub fn next_order_id(&mut self) -> (id: u64)
        requires
            old(self).order_id_counter < u64::MAX,
        ensures
            id == old(self).order_id_counter + 1,
            final(self)@ == old(self)@.issue_id(),
            old(self)@.wf() ==> final(self)@.wf() && !final(self)@.contains_id(id),
    {
        self.order_id_counter = self.order_id_counter + 1;
        self.order_id_counter
    }
}

} // verus!
