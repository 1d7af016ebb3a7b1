//! Placing an order: the matching engine as a machine that the host drives.
//!
//! The engine decides; the host moves funds, looks up accounts and publishes
//! trades. A placement starts with [`PlaceOrder::new`], which names the funds
//! to lock. From then on the host carries out what it was asked, reports the
//! outcome as a [`Reply`] to [`place_order`], and receives the next
//! [`Action`], until the placement is done or aborted.

use crate::book::Orderbook;
use crate::key::Pubkey;
use crate::ledger::{Asset, Holder, Transfer};
use crate::model::{lemma_insert_wf, lemma_pop_best_wf, lemma_rank_is, Book};
use crate::order::{crosses, outranks, price_crosses, DexError, Order, Side, TradeEvent};
use vstd::prelude::*;

verus! {

/// Where a placement stands.
#[derive(Clone, Copy, Debug, PartialEq, Eq)]
pub enum Stage {
    /// The ledger was asked to lock the taker's funds.
    Reserving,
    /// `maker` was taken out of the book and the host was asked for the
    /// maker's settlement account.
    Resolving { maker: Order },
    /// The ledger was asked to deliver both legs of a fill of `quantity`
    /// against `maker`.
    Settling { maker: Order, quantity: u64 },
    /// The placement is complete. `order_id` is the identifier under which
    /// the unfilled remainder rests, if there is a remainder.
    Done { order_id: Option<u64> },
    /// The placement failed.
    Aborted { error: DexError },
}

/// A placement in progress: the taker's order and the stage it has reached.
#[derive(Clone, Copy, Debug, PartialEq, Eq)]
pub struct PlaceOrder {
    /// The taker.
    pub owner: Pubkey,
    pub side: Side,
    /// The taker's limit price.
    pub price: u64,
    /// The quantity the taker asked for.
    pub quantity: u64,
    /// The part of `quantity` that no fill has covered yet.
    pub remaining: u64,
    pub stage: Stage,
}

/// What the host reports back to the engine.
#[derive(Clone, Copy, Debug, PartialEq, Eq)]
pub enum Reply {
    /// The ledger carried out every movement it was asked for.
    Transferred,
    /// The ledger refused a movement; nothing moved.
    TransferFailed,
    /// The settlement account of the maker was found; this is the owner it
    /// records.
    Account(Pubkey),
    /// No settlement account could be found for the maker.
    AccountMissing,
}

/// How a completed placement ended.
#[derive(Clone, Copy, Debug, PartialEq, Eq)]
pub struct PlaceOutcome {
    /// The quantity that fills covered.
    pub filled: u64,
    /// The quantity that came to rest in the book.
    pub resting: u64,
    /// The identifier of the resting remainder, if any quantity rests.
    pub order_id: Option<u64>,
}

/// What the engine asks of the host next.
#[derive(Clone, Copy, Debug, PartialEq, Eq)]
pub enum Action {
    /// Look up the settlement account of the maker `owner` and report the
    /// owner it records.
    Resolve { owner: Pubkey },
    /// Deliver both legs of a fill, then publish `event`.
    Settle { base: Transfer, quote: Transfer, event: TradeEvent },
    /// Nothing more: the placement is complete.
    Done(PlaceOutcome),
    /// Nothing more: the placement failed.
    Abort(DexError),
}

/// The result of one step of the engine.
pub struct Step {
    pub book: Book,
    pub order: PlaceOrder,
    pub action: Action,
}

impl PlaceOrder {
    /// A placement for which the ledger is yet to lock the taker's funds.
    pub open spec fn opened(owner: Pubkey, side: Side, price: u64, quantity: u64) -> PlaceOrder {
        PlaceOrder { owner, side, price, quantity, remaining: quantity, stage: Stage::Reserving }
    }

    /// The funds a taker locks before any matching: the full price of a
    /// purchase in the quote asset, or the quantity on sale in the base asset.
    pub open spec fn reservation(self) -> Transfer {
        match self.side {
            Side::Buy => Transfer {
                asset: Asset::Quote,
                from: Holder::Party(self.owner),
                to: Holder::Custody,
                amount: (self.price * self.quantity) as u64,
            },
            Side::Sell => Transfer {
                asset: Asset::Base,
                from: Holder::Party(self.owner),
                to: Holder::Custody,
                amount: self.quantity,
            },
        }
    }

    /// How the placement ends if it completes in its present state.
    pub open spec fn outcome(self, order_id: Option<u64>) -> PlaceOutcome {
        PlaceOutcome {
            filled: (self.quantity - self.remaining) as u64,
            resting: self.remaining,
            order_id,
        }
    }

    /// The quantity of a fill against `maker`: all that the taker still
    /// wants, or all that the maker still offers, whichever is less.
    pub open spec fn fill_quantity(self, maker: Order) -> u64 {
        if self.remaining <= maker.quantity {
            self.remaining
        } else {
            maker.quantity
        }
    }

    /// The two legs and the record of a fill of `quantity` against `maker`.
    /// The fill executes at the maker's price. The base asset goes to the
    /// buyer and the quote asset to the seller, both out of custody.
    pub open spec fn settlement(self, book: Book, maker: Order, quantity: u64) -> Action {
        let buyer = match self.side {
            Side::Buy => self.owner,
            Side::Sell => maker.owner,
        };
        let seller = match self.side {
            Side::Buy => maker.owner,
            Side::Sell => self.owner,
        };
        Action::Settle {
            base: Transfer {
                asset: Asset::Base,
                from: Holder::Custody,
                to: Holder::Party(buyer),
                amount: quantity,
            },
            quote: Transfer {
                asset: Asset::Quote,
                from: Holder::Custody,
                to: Holder::Party(seller),
                amount: (maker.price * quantity) as u64,
            },
            event: TradeEvent {
                taker: self.owner,
                maker: maker.owner,
                base_mint: book.base_mint,
                quote_mint: book.quote_mint,
                quantity,
                price: maker.price,
            },
        }
    }

    /// The placement fails with `error`. The book stays as it is: a maker
    /// that was taken out for this placement is not put back.
    pub open spec fn abort(self, book: Book, error: DexError) -> Step {
        Step {
            book,
            order: PlaceOrder { stage: Stage::Aborted { error }, ..self },
            action: Action::Abort(error),
        }
    }

    /// The engine looks for the next maker. While the taker wants more and
    /// the best resting order of the opposite side is priced within the
    /// taker's limit, that order is taken out of the book to be matched.
    /// Otherwise the placement is complete, and what the taker still wants
    /// comes to rest under a fresh identifier.
    pub open spec fn seek(self, book: Book) -> Step {
        let opposite = self.side.opposite();
        if self.remaining > 0 && book.crossed_by(self.side, self.price) {
            let maker = book.side(opposite)[0];
            Step {
                book: book.pop_best(opposite),
                order: PlaceOrder { stage: Stage::Resolving { maker }, ..self },
                action: Action::Resolve { owner: maker.owner },
            }
        } else if self.remaining > 0 {
            let order_id = (book.order_id_counter + 1) as u64;
            let rest = Order {
                owner: self.owner,
                price: self.price,
                quantity: self.remaining,
                order_id,
            };
            Step {
                book: book.issue_id().insert(self.side, rest),
                order: PlaceOrder { stage: Stage::Done { order_id: Some(order_id) }, ..self },
                action: Action::Done(self.outcome(Some(order_id))),
            }
        } else {
            Step {
                book,
                order: PlaceOrder { stage: Stage::Done { order_id: None }, ..self },
                action: Action::Done(self.outcome(None)),
            }
        }
    }

    /// One step of the engine: what becomes of the book and of the
    /// placement, and what the host is asked next, when the host reports
    /// `reply`.
    ///
    /// Any reply other than the success that a stage waits for counts as
    /// failure. A placement that is done or aborted stays as it is and
    /// repeats its last word.
    pub open spec fn step(self, book: Book, reply: Reply) -> Step {
        match self.stage {
            Stage::Reserving => if reply == Reply::Transferred {
                self.seek(book)
            } else {
                self.abort(book, DexError::TransferError)
            },
            Stage::Resolving { maker } => {
                let quantity = self.fill_quantity(maker);
                if reply != Reply::Account(maker.owner) {
                    self.abort(book, DexError::MakerAccountMismatch)
                } else if maker.price * quantity > u64::MAX {
                    self.abort(book, DexError::CalculationError)
                } else {
                    Step {
                        book,
                        order: PlaceOrder { stage: Stage::Settling { maker, quantity }, ..self },
                        action: self.settlement(book, maker, quantity),
                    }
                }
            },
            Stage::Settling { maker, quantity } => if reply == Reply::Transferred {
                let left = (maker.quantity - quantity) as u64;
                let taker = PlaceOrder { remaining: (self.remaining - quantity) as u64, ..self };
                if left > 0 {
                    taker.seek(book.insert(self.side.opposite(), maker.with_quantity(left)))
                } else {
                    taker.seek(book)
                }
            } else {
                self.abort(book, DexError::TransferError)
            },
            Stage::Done { order_id } => Step {
                book,
                order: self,
                action: Action::Done(self.outcome(order_id)),
            },
            Stage::Aborted { error } => Step { book, order: self, action: Action::Abort(error) },
        }
    }

    /// The book as it was before `maker` was taken out of it.
    pub open spec fn restored(self, book: Book, maker: Order) -> Book {
        let opposite = self.side.opposite();
        book.with_side(opposite, seq![maker] + book.side(opposite))
    }

    /// `maker` is being matched: it is priced within the taker's limit, and
    /// with it back at the head of its side the book is well formed.
    pub open spec fn matching(self, book: Book, maker: Order) -> bool {
        &&& crosses(self.side, self.price, maker.price)
        &&& self.restored(book, maker).wf()
    }

    /// What holds of a placement and its book between any two steps.
    pub open spec fn inv(self, book: Book) -> bool {
        &&& book.wf()
        &&& self.price > 0
        &&& self.quantity > 0
        &&& self.remaining <= self.quantity
        &&& match self.stage {
            Stage::Reserving => {
                &&& self.remaining == self.quantity
                &&& book.order_id_counter < u64::MAX
            },
            Stage::Resolving { maker } => {
                &&& self.remaining > 0
                &&& book.order_id_counter < u64::MAX
                &&& self.matching(book, maker)
            },
            Stage::Settling { maker, quantity } => {
                &&& self.remaining > 0
                &&& book.order_id_counter < u64::MAX
                &&& self.matching(book, maker)
                &&& quantity == self.fill_quantity(maker)
                &&& maker.price * quantity <= u64::MAX
            },
            Stage::Done { order_id } => order_id is Some <==> self.remaining > 0,
            Stage::Aborted { error } => true,
        }
    }

    /// Opens a placement and names the funds that the ledger must lock
    /// before the first step. Fails, with nothing to lock, if the full price
    /// of a purchase does not fit in 64 bits.
    pub fn new(owner: Pubkey, side: Side, price: u64, quantity: u64) -> (r: Result<
        (PlaceOrder, Transfer),
        DexError,
    >)
        requires
            price > 0,
            quantity > 0,
        ensures
            r is Err <==> side == Side::Buy && price * quantity > u64::MAX,
            r matches Err(e) ==> e == DexError::CalculationError,
            r matches Ok((order, transfer)) ==> order == PlaceOrder::opened(
                owner,
                side,
                price,
                quantity,
            ) && transfer == order.reservation(),
    {
        let amount = match side {
            Side::Buy => match price.checked_mul(quantity) {
                Some(total) => total,
                None => {
                    return Err(DexError::CalculationError);
                },
            },
            Side::Sell => quantity,
        };
        let order = PlaceOrder { owner, side, price, quantity, remaining: quantity, stage: Stage::Reserving };
        let transfer = Transfer {
            asset: match side {
                Side::Buy => Asset::Quote,
                Side::Sell => Asset::Base,
            },
            from: Holder::Party(owner),
            to: Holder::Custody,
            amount,
        };
        Ok((order, transfer))
    }

    /// Whether the placement is done or aborted.
    pub fn is_closed(&self) -> (r: bool)
        ensures
            r == (self.stage is Done || self.stage is Aborted),
    {
        match self.stage {
            Stage::Done { .. } => true,
            Stage::Aborted { .. } => true,
            _ => false,
        }
    }
}

/// While a maker is being matched, the book without it is well formed, the
/// maker's identifier rests nowhere, and what is left of the maker goes back
/// to the head of its side.
pub proof fn lemma_matching(order: PlaceOrder, book: Book, maker: Order, left: u64)
    requires
        order.matching(book, maker),
        left > 0,
    ensures
        book.wf(),
        maker.live(),
        book.admits(order.side.opposite(), maker.with_quantity(left)),
        book.insert(order.side.opposite(), maker.with_quantity(left)) == order.restored(
            book,
            maker.with_quantity(left),
        ),
        order.restored(book, maker.with_quantity(left)).wf(),
{
    let opposite = order.side.opposite();
    let s = book.side(opposite);
    let whole = order.restored(book, maker);
    let part = maker.with_quantity(left);
    assert(whole.side(opposite)[0] == maker);
    lemma_pop_best_wf(whole, opposite);
    assert(whole.side(opposite).drop_first() =~= s);
    assert(whole.pop_best(opposite) == book);
    assert(book.side(order.side) == whole.side(order.side));
    if s.len() > 0 {
        assert(whole.side(opposite)[1] == s[0]);
        assert(outranks(opposite, maker, s[0]));
    }
    lemma_rank_is(opposite, s, book.order_id_counter, part, 0);
    assert(s.insert(0, part) =~= seq![part] + s);
    lemma_insert_wf(book, opposite, part);
}

/// The search for the next maker keeps the book and the placement sound.
pub proof fn lemma_seek_keeps_inv(order: PlaceOrder, book: Book)
    requires
        book.wf(),
        book.order_id_counter < u64::MAX,
        order.price > 0,
        order.quantity > 0,
        order.remaining <= order.quantity,
    ensures
        order.seek(book).order.inv(order.seek(book).book),
{
    let opposite = order.side.opposite();
    let next = order.seek(book);
    if order.remaining > 0 && book.crossed_by(order.side, order.price) {
        let maker = book.side(opposite)[0];
        lemma_pop_best_wf(book, opposite);
        assert(seq![maker] + book.side(opposite).drop_first() =~= book.side(opposite));
        assert(next.order.restored(next.book, maker) == book);
    } else if order.remaining > 0 {
        let issued = book.issue_id();
        let rest = Order {
            owner: order.owner,
            price: order.price,
            quantity: order.remaining,
            order_id: issued.order_id_counter,
        };
        assert(issued.wf());
        assert(!issued.contains_id(rest.order_id));
        lemma_insert_wf(issued, order.side, rest);
    }
}

/// Every step keeps the book and the placement sound, whatever the host
/// reports.
pub proof fn lemma_step_keeps_inv(order: PlaceOrder, book: Book, reply: Reply)
    requires
        order.inv(book),
    ensures
        order.step(book, reply).order.inv(order.step(book, reply).book),
{
    match order.stage {
        Stage::Reserving => {
            lemma_seek_keeps_inv(order, book);
        },
        Stage::Resolving { maker } => {},
        Stage::Settling { maker, quantity } => {
            let left = (maker.quantity - quantity) as u64;
            let taker = PlaceOrder { remaining: (order.remaining - quantity) as u64, ..order };
            if left > 0 {
                lemma_matching(order, book, maker, left);
                lemma_seek_keeps_inv(
                    taker,
                    book.insert(order.side.opposite(), maker.with_quantity(left)),
                );
            } else {
                lemma_seek_keeps_inv(taker, book);
            }
        },
        Stage::Done { order_id } => {},
        Stage::Aborted { error } => {},
    }
}

/// Closes the placement with `error`.
fn abort(order: &mut PlaceOrder, error: DexError) -> (action: Action)
    ensures
        *final(order) == (PlaceOrder { stage: Stage::Aborted { error }, ..*old(order) }),
        action == Action::Abort(error),
{
    order.stage = Stage::Aborted { error };
    Action::Abort(error)
}

/// Takes the next maker out of the book, or completes the placement.
fn seek_maker(book: &mut Orderbook, order: &mut PlaceOrder) -> (action: Action)
    requires
        old(book)@.wf(),
        old(book).order_id_counter < u64::MAX,
        old(order).price > 0,
        old(order).remaining <= old(order).quantity,
    ensures
        final(book)@ == old(order).seek(old(book)@).book,
        *final(order) == old(order).seek(old(book)@).order,
        action == old(order).seek(old(book)@).action,
{
    let opposite = order.side.opposite();
    if order.remaining == 0 {
        order.stage = Stage::Done { order_id: None };
        return Action::Done(
            PlaceOutcome { filled: order.quantity, resting: 0, order_id: None },
        );
    }
    match book.peek_best(opposite) {
        Some(maker) => {
            if price_crosses(order.side, order.price, maker.price) {
                book.pop_best(opposite);
                order.stage = Stage::Resolving { maker };
                return Action::Resolve { owner: maker.owner };
            }
        },
        None => {},
    }
    let order_id = book.next_order_id();
    let rest = Order {
        owner: order.owner,
        price: order.price,
        quantity: order.remaining,
        order_id,
    };
    book.insert(order.side, rest);
    order.stage = Stage::Done { order_id: Some(order_id) };
    Action::Done(
        PlaceOutcome {
            filled: order.quantity - order.remaining,
            resting: order.remaining,
            order_id: Some(order_id),
        },
    )
}

/// Advances a placement by one step.
///
/// The host reports in `reply` how the last thing it was asked to do went:
/// first the locking of the funds that [`PlaceOrder::new`] named, then
/// whatever the preceding call of this function returned. The call changes
/// the book and the placement as [`PlaceOrder::step`] says and returns what
/// to do next.
pub fn place_order(book: &mut Orderbook, order: &mut PlaceOrder, reply: Reply) -> (action: Action)
    requires
        old(order).inv(old(book)@),
    ensures
        final(book)@ == old(order).step(old(book)@, reply).book,
        *final(order) == old(order).step(old(book)@, reply).order,
        action == old(order).step(old(book)@, reply).action,
        final(order).inv(final(book)@),
{
    proof {
        lemma_step_keeps_inv(*order, book@, reply);
    }
    match order.stage {
        Stage::Reserving => match reply {
            Reply::Transferred => seek_maker(book, order),
            _ => abort(order, DexError::TransferError),
        },
        Stage::Resolving { maker } => {
            let confirmed = match reply {
                Reply::Account(key) => key == maker.owner,
                _ => false,
            };
            if !confirmed {
                return abort(order, DexError::MakerAccountMismatch);
            }
            let quantity = if order.remaining <= maker.quantity {
                order.remaining
            } else {
                maker.quantity
            };
            match maker.price.checked_mul(quantity) {
                None => abort(order, DexError::CalculationError),
                Some(total) => {
                    let (buyer, seller) = match order.side {
                        Side::Buy => (order.owner, maker.owner),
                        Side::Sell => (maker.owner, order.owner),
                    };
                    order.stage = Stage::Settling { maker, quantity };
                    Action::Settle {
                        base: Transfer {
                            asset: Asset::Base,
                            from: Holder::Custody,
                            to: Holder::Party(buyer),
                            amount: quantity,
                        },
                        quote: Transfer {
                            asset: Asset::Quote,
                            from: Holder::Custody,
                            to: Holder::Party(seller),
                            amount: total,
                        },
                        event: TradeEvent {
                            taker: order.owner,
                            maker: maker.owner,
                            base_mint: book.base_mint,
                            quote_mint: book.quote_mint,
                            quantity,
                            price: maker.price,
                        },
                    }
                },
            }
        },
        Stage::Settling { maker, quantity } => match reply {
            Reply::Transferred => {
                let left = maker.quantity - quantity;
                order.remaining = order.remaining - quantity;
                if left > 0 {
                    proof {
                        lemma_matching(*old(order), book@, maker, left);
                    }
                    book.insert(
                        order.side.opposite(),
                        Order {
                            owner: maker.owner,
                            price: maker.price,
                            quantity: left,
                            order_id: maker.order_id,
                        },
                    );
                }
                seek_maker(book, order)
            },
            _ => abort(order, DexError::TransferError),
        },
        Stage::Done { order_id } => Action::Done(
            PlaceOutcome {
                filled: order.quantity - order.remaining,
                resting: order.remaining,
                order_id,
            },
        ),
        Stage::Aborted { error } => Action::Abort(error),
    }
}

} // verus!
