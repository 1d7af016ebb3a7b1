//! What holds of every book and of every placement, whatever the host does.

use crate::cancel::refund;
use crate::key::Pubkey;
use crate::ledger::{Asset, Transfer};
use crate::model::{
    backing, funded, has_id, lemma_funded_insert, lemma_funded_remove, lemma_has_id_insert,
    lemma_has_id_remove, lemma_locked_funds_insert,
    lemma_locked_funds_remove, lemma_open_quantity_insert, lemma_open_quantity_remove,
    lemma_position_finds, lemma_rank_splits, lemma_remove_at_wf, open_quantity, position, rank,
    Book,
};
use crate::order::{outranks, DexError, Order, Side};
use crate::place::{lemma_matching, lemma_step_keeps_inv, Action, PlaceOrder, Reply, Stage};
use vstd::prelude::*;

verus! {

/// A request that a book serves.
pub enum Request {
    /// A placement, together with everything the host reports while it is
    /// being served. The reports may be any at all, and may stop short of
    /// the end of the placement.
    Place { owner: Pubkey, side: Side, price: u64, quantity: u64, replies: Seq<Reply> },
    /// A cancellation.
    Cancel { requester: Pubkey, order_id: u64 },
}

/// The placement and the book after the host reported `replies`, one step
/// for each.
pub open spec fn run(order: PlaceOrder, book: Book, replies: Seq<Reply>) -> (PlaceOrder, Book)
    decreases replies.len(),
{
    if replies.len() == 0 {
        (order, book)
    } else {
        let next = order.step(book, replies[0]);
        run(next.order, next.book, replies.drop_first())
    }
}

/// Whether the book takes up a placement: price and quantity are positive,
/// the funds to lock fit in 64 bits, and an identifier is left to issue.
pub open spec fn accepts(book: Book, side: Side, price: u64, quantity: u64) -> bool {
    &&& price > 0
    &&& quantity > 0
    &&& book.order_id_counter < u64::MAX
    &&& side == Side::Buy ==> price * quantity <= u64::MAX
}

/// The book after it served `request`. A placement that the book does not
/// take up leaves it unchanged.
pub open spec fn serve(book: Book, request: Request) -> Book {
    match request {
        Request::Place { owner, side, price, quantity, replies } => if accepts(
            book,
            side,
            price,
            quantity,
        ) {
            run(PlaceOrder::opened(owner, side, price, quantity), book, replies).1
        } else {
            book
        },
        Request::Cancel { requester, order_id } => book.cancel(requester, order_id),
    }
}

/// The book that served `requests`, in order, since it was opened.
pub open spec fn history(base_mint: Pubkey, quote_mint: Pubkey, requests: Seq<Request>) -> Book
    decreases requests.len(),
{
    if requests.len() == 0 {
        Book::empty(base_mint, quote_mint)
    } else {
        serve(history(base_mint, quote_mint, requests.drop_last()), requests.last())
    }
}

/// The quantity on `side` that a placement has in hand: what the taker
/// still wants, on the taker's side, and the maker that is out of the book
/// to be matched, on the other.
pub open spec fn pending(order: PlaceOrder, side: Side) -> int {
    match order.stage {
        Stage::Reserving => if side == order.side {
            order.remaining as int
        } else {
            0
        },
        Stage::Resolving { maker } => if side == order.side {
            order.remaining as int
        } else {
            maker.quantity as int
        },
        Stage::Settling { maker, quantity } => if side == order.side {
            order.remaining as int
        } else {
            maker.quantity as int
        },
        Stage::Done { order_id } => 0,
        Stage::Aborted { error } => 0,
    }
}

/// All the quantity of `side` that the book and a placement account for:
/// what rests, what the placement has in hand, and what the placement's
/// fills have delivered so far.
pub open spec fn accounted(book: Book, order: PlaceOrder, side: Side) -> int {
    open_quantity(book.side(side)) + pending(order, side) + (order.quantity - order.remaining)
}

/// In a well-formed book every bid is priced below every ask. In
/// particular the best bid is below the best ask whenever both exist.
pub proof fn no_bid_reaches_an_ask(book: Book, i: int, j: int)
    requires
        book.wf(),
        0 <= i < book.bids.len(),
        0 <= j < book.asks.len(),
    ensures
        book.bids[i].price < book.asks[j].price,
        book.best_price(Side::Buy).unwrap() < book.best_price(Side::Sell).unwrap(),
{
    if i > 0 {
        assert(outranks(Side::Buy, book.bids[0], book.bids[i]));
    }
    if j > 0 {
        assert(outranks(Side::Sell, book.asks[0], book.asks[j]));
    }
}

/// Every resting order of a well-formed book has a positive price and a
/// positive remaining quantity.
pub proof fn resting_orders_are_live(book: Book, side: Side, i: int)
    requires
        book.wf(),
        0 <= i < book.side(side).len(),
    ensures
        book.side(side)[i].price > 0,
        book.side(side)[i].quantity > 0,
{
}

/// Price-time priority: of two resting orders of one side, the one that
/// stands first has the strictly better price, or the same price and the
/// smaller identifier. The order that is matched next, the head of the side,
/// therefore has priority over every other.
pub proof fn resting_orders_stand_in_priority(book: Book, side: Side, i: int, j: int)
    requires
        book.wf(),
        0 <= i < j < book.side(side).len(),
    ensures
        outranks(side, book.side(side)[i], book.side(side)[j]),
        match side {
            Side::Buy => book.side(side)[i].price >= book.side(side)[j].price,
            Side::Sell => book.side(side)[i].price <= book.side(side)[j].price,
        },
        book.side(side)[i].price == book.side(side)[j].price ==> book.side(side)[i].order_id
            < book.side(side)[j].order_id,
{
}

/// The maker that a placement is matching has priority over every order
/// that still rests on the maker's side, and none of those has priority over
/// the maker.
pub proof fn maker_has_priority(order: PlaceOrder, book: Book, i: int)
    requires
        order.inv(book),
        order.stage is Resolving || order.stage is Settling,
        0 <= i < book.side(order.side.opposite()).len(),
    ensures
        ({
            let maker = match order.stage {
                Stage::Resolving { maker } => maker,
                Stage::Settling { maker, quantity } => maker,
                _ => arbitrary(),
            };
            let rests = book.side(order.side.opposite())[i];
            outranks(order.side.opposite(), maker, rests) && !outranks(
                order.side.opposite(),
                rests,
                maker,
            )
        }),
{
    let opposite = order.side.opposite();
    let maker = match order.stage {
        Stage::Resolving { maker } => maker,
        Stage::Settling { maker, quantity } => maker,
        _ => arbitrary(),
    };
    let whole = order.restored(book, maker).side(opposite);
    assert(whole[0] == maker);
    assert(whole[i + 1] == book.side(opposite)[i]);
}

/// When the fill against a maker is delivered, a maker that the fill
/// exhausts is gone from the book, and one that it does not exhaust rests
/// again at the head of its side, under its old identifier and at its old
/// price, with what is left of its quantity.
pub proof fn filled_maker_leaves_or_keeps_its_place(order: PlaceOrder, book: Book)
    requires
        order.inv(book),
        order.stage is Settling,
    ensures
        ({
            let maker = order.stage->Settling_maker;
            let quantity = order.stage->Settling_quantity;
            let next = order.step(book, Reply::Transferred);
            &&& quantity == maker.quantity ==> !next.book.contains_id(maker.order_id)
            &&& quantity < maker.quantity ==> next.order.stage is Done && next.book.best(
                order.side.opposite(),
            ) == Some(maker.with_quantity((maker.quantity - quantity) as u64))
        }),
{
    let maker = order.stage->Settling_maker;
    let quantity = order.stage->Settling_quantity;
    let opposite = order.side.opposite();
    let next = order.step(book, Reply::Transferred);
    let taker = PlaceOrder { remaining: (order.remaining - quantity) as u64, ..order };
    if quantity == maker.quantity {
        lemma_matching(order, book, maker, 1);
        assert(!book.contains_id(maker.order_id));
        if taker.remaining > 0 && book.crossed_by(taker.side, taker.price) {
            if has_id(next.book.side(opposite), maker.order_id) {
                assert(book.side(opposite).drop_first() =~= book.side(opposite).remove(0));
                lemma_has_id_remove(book.side(opposite), 0, maker.order_id);
            }
        } else if taker.remaining > 0 {
            let issued = book.issue_id();
            let s = issued.side(order.side);
            let rest = Order {
                owner: order.owner,
                price: order.price,
                quantity: taker.remaining,
                order_id: issued.order_id_counter,
            };
            lemma_rank_splits(order.side, s, issued.order_id_counter, rest);
            if has_id(next.book.side(order.side), maker.order_id) {
                lemma_has_id_insert(s, rank(order.side, s, rest), rest, maker.order_id);
            }
        }
    } else {
        let left = (maker.quantity - quantity) as u64;
        lemma_matching(order, book, maker, left);
    }
}

/// Conservation: a step that does not abort neither makes nor loses
/// quantity. On each side, what rests in the book, what the placement has in
/// hand and what its fills have delivered add up to the same before and
/// after.
pub proof fn steps_conserve_quantity(order: PlaceOrder, book: Book, reply: Reply, side: Side)
    requires
        order.inv(book),
        !(order.step(book, reply).order.stage is Aborted),
    ensures
        accounted(order.step(book, reply).book, order.step(book, reply).order, side) == accounted(
            book,
            order,
            side,
        ),
{
    let opposite = order.side.opposite();
    match order.stage {
        Stage::Reserving => {
            seeking_conserves_quantity(order, book, side);
        },
        Stage::Resolving { maker } => {},
        Stage::Settling { maker, quantity } => {
            let left = (maker.quantity - quantity) as u64;
            let taker = PlaceOrder { remaining: (order.remaining - quantity) as u64, ..order };
            if left > 0 {
                lemma_matching(order, book, maker, left);
                let back = book.insert(opposite, maker.with_quantity(left));
                let s = book.side(opposite);
                lemma_rank_splits(opposite, s, book.order_id_counter, maker.with_quantity(left));
                lemma_open_quantity_insert(
                    s,
                    rank(opposite, s, maker.with_quantity(left)),
                    maker.with_quantity(left),
                );
                seeking_conserves_quantity(taker, back, side);
            } else {
                lemma_matching(order, book, maker, 1);
                seeking_conserves_quantity(taker, book, side);
            }
        },
        Stage::Done { order_id } => {},
        Stage::Aborted { error } => {},
    }
}

/// The search for the next maker moves quantity between the book and the
/// placement and changes no total.
proof fn seeking_conserves_quantity(order: PlaceOrder, book: Book, side: Side)
    requires
        book.wf(),
        book.order_id_counter < u64::MAX,
        order.price > 0,
        order.remaining <= order.quantity,
    ensures
        open_quantity(order.seek(book).book.side(side)) + pending(order.seek(book).order, side)
            == open_quantity(book.side(side)) + if side == order.side {
            order.remaining as int
        } else {
            0
        },
        order.seek(book).order.remaining == order.remaining,
        order.seek(book).order.quantity == order.quantity,
{
    let opposite = order.side.opposite();
    if order.remaining > 0 && book.crossed_by(order.side, order.price) {
        let s = book.side(opposite);
        assert(s.drop_first() =~= s.remove(0));
        lemma_open_quantity_remove(s, 0);
    } else if order.remaining > 0 {
        let issued = book.issue_id();
        let s = issued.side(order.side);
        let rest = Order {
            owner: order.owner,
            price: order.price,
            quantity: order.remaining,
            order_id: issued.order_id_counter,
        };
        lemma_rank_splits(order.side, s, issued.order_id_counter, rest);
        lemma_open_quantity_insert(s, rank(order.side, s, rest), rest);
    }
}

/// Conservation on cancel: a cancellation that succeeds takes exactly the
/// cancelled order's quantity out of its side and nothing out of the other,
/// and refunds exactly what custody held for that order. One that fails
/// changes nothing.
pub proof fn cancel_conserves_quantity(book: Book, requester: Pubkey, order_id: u64)
    requires
        book.wf(),
    ensures
        match book.locate(order_id) {
            Some((side, o)) if book.cancel_result(requester, order_id) is Ok => {
                &&& open_quantity(book.cancel(requester, order_id).side(side)) + o.quantity
                    == open_quantity(book.side(side))
                &&& book.cancel(requester, order_id).side(side.opposite()) == book.side(
                    side.opposite(),
                )
                &&& book.cancel_result(requester, order_id) == Ok::<Transfer, DexError>(refund(side, o))
            },
            _ => book.cancel(requester, order_id) == book,
        },
{
    lemma_position_finds(book.bids, order_id);
    lemma_position_finds(book.asks, order_id);
    match book.locate(order_id) {
        Some((side, o)) => {
            if book.cancel_result(requester, order_id) is Ok {
                lemma_open_quantity_remove(book.side(side), position(book.side(side), order_id));
            }
        },
        None => {},
    }
}

/// A cancellation leaves the book well formed.
pub proof fn cancel_keeps_book_well_formed(book: Book, requester: Pubkey, order_id: u64)
    requires
        book.wf(),
    ensures
        book.cancel(requester, order_id).wf(),
        book.cancel(requester, order_id).order_id_counter == book.order_id_counter,
        book.cancel_result(requester, order_id) is Ok ==> !book.cancel(
            requester,
            order_id,
        ).contains_id(order_id),
{
    lemma_position_finds(book.bids, order_id);
    lemma_position_finds(book.asks, order_id);
    match book.locate(order_id) {
        Some((side, o)) => {
            if book.cancel_result(requester, order_id) is Ok {
                lemma_remove_at_wf(book, side, position(book.side(side), order_id));
            }
        },
        None => {},
    }
}

/// Cancelling an identifier that rests nowhere fails with `OrderNotFound`
/// and leaves the book as it is, whoever asks.
pub proof fn cancel_of_absent_order_changes_nothing(book: Book, requester: Pubkey, order_id: u64)
    requires
        !book.contains_id(order_id),
    ensures
        book.cancel_result(requester, order_id) == Err::<Transfer, DexError>(DexError::OrderNotFound),
        book.cancel(requester, order_id) == book,
{
}

/// Cancelling an order that was already cancelled fails with
/// `OrderNotFound` and leaves the book as it is.
pub proof fn second_cancel_changes_nothing(
    book: Book,
    first: Pubkey,
    second: Pubkey,
    order_id: u64,
)
    requires
        book.wf(),
        book.cancel_result(first, order_id) is Ok,
    ensures
        book.cancel(first, order_id).cancel_result(second, order_id) == Err::<Transfer, DexError>(
            DexError::OrderNotFound,
        ),
        book.cancel(first, order_id).cancel(second, order_id) == book.cancel(first, order_id),
{
    cancel_keeps_book_well_formed(book, first, order_id);
    cancel_of_absent_order_changes_nothing(book.cancel(first, order_id), second, order_id);
}

/// Identifiers are never reused: a step never lowers the counter, and an
/// order that comes to rest with an identifier that was not in the book, and
/// is not that of the maker in hand, carries an identifier above every one
/// issued before.
pub proof fn steps_issue_fresh_identifiers(order: PlaceOrder, book: Book, reply: Reply, id: u64)
    requires
        order.inv(book),
        order.step(book, reply).book.contains_id(id),
        !book.contains_id(id),
    ensures
        order.step(book, reply).book.order_id_counter >= book.order_id_counter,
        id > book.order_id_counter || (order.stage matches Stage::Settling { maker, quantity }
            && id == maker.order_id),
{
    match order.stage {
        Stage::Reserving => {
            seeking_issues_fresh_identifiers(order, book, id);
        },
        Stage::Resolving { maker } => {},
        Stage::Settling { maker, quantity } => {
            if reply == Reply::Transferred {
                let left = (maker.quantity - quantity) as u64;
                let taker = PlaceOrder { remaining: (order.remaining - quantity) as u64, ..order };
                let opposite = order.side.opposite();
                if left > 0 {
                    lemma_matching(order, book, maker, left);
                    let back = book.insert(opposite, maker.with_quantity(left));
                    if id != maker.order_id {
                        if back.contains_id(id) {
                            let s = book.side(opposite);
                            lemma_rank_splits(
                                opposite,
                                s,
                                book.order_id_counter,
                                maker.with_quantity(left),
                            );
                            lemma_has_id_insert(
                                s,
                                rank(opposite, s, maker.with_quantity(left)),
                                maker.with_quantity(left),
                                id,
                            );
                            assert(book.side(order.side) == back.side(order.side));
                        } else {
                            seeking_issues_fresh_identifiers(taker, back, id);
                        }
                    }
                } else {
                    lemma_matching(order, book, maker, 1);
                    seeking_issues_fresh_identifiers(taker, book, id);
                }
            }
        },
        Stage::Done { order_id } => {},
        Stage::Aborted { error } => {},
    }
}

/// The search for the next maker brings no identifier into the book but the
/// one it issues.
proof fn seeking_issues_fresh_identifiers(order: PlaceOrder, book: Book, id: u64)
    requires
        book.wf(),
        book.order_id_counter < u64::MAX,
        order.price > 0,
        order.remaining <= order.quantity,
        order.seek(book).book.contains_id(id),
        !book.contains_id(id),
    ensures
        id == book.order_id_counter + 1,
        order.seek(book).order.stage == (Stage::Done { order_id: Some(id) }),
{
    let opposite = order.side.opposite();
    if order.remaining > 0 && book.crossed_by(order.side, order.price) {
        let s = book.side(opposite);
        assert(s.drop_first() =~= s.remove(0));
        assert(order.seek(book).book.side(order.side) == book.side(order.side));
        if has_id(s.remove(0), id) {
            lemma_has_id_remove(s, 0, id);
        }
    } else if order.remaining > 0 {
        let issued = book.issue_id();
        let s = issued.side(order.side);
        let rest = Order {
            owner: order.owner,
            price: order.price,
            quantity: order.remaining,
            order_id: issued.order_id_counter,
        };
        lemma_rank_splits(order.side, s, issued.order_id_counter, rest);
        assert(order.seek(book).book.side(opposite) == book.side(opposite));
        if has_id(s.insert(rank(order.side, s, rest), rest), id) {
            lemma_has_id_insert(s, rank(order.side, s, rest), rest, id);
        }
    }
}

/// What custody holds of `asset` for what the taker still wants: the
/// price of the unfilled part of a purchase in the quote asset, the unfilled
/// part of a sale in the base asset.
pub open spec fn stake(order: PlaceOrder, asset: Asset) -> int {
    match (order.side, asset) {
        (Side::Buy, Asset::Quote) => order.price * order.remaining,
        (Side::Sell, Asset::Base) => order.remaining as int,
        _ => 0,
    }
}

/// What custody holds of `asset` for a placement in progress: the taker's
/// stake once it is locked, and the backing of the maker that is out of the
/// book to be matched.
pub open spec fn held(order: PlaceOrder, asset: Asset) -> int {
    match order.stage {
        Stage::Resolving { maker } => stake(order, asset) + backing(
            order.side.opposite(),
            maker,
            asset,
        ),
        Stage::Settling { maker, quantity } => stake(order, asset) + backing(
            order.side.opposite(),
            maker,
            asset,
        ),
        _ => 0,
    }
}

/// What enters custody of `asset` when the host reports `reply`: the
/// taker's stake, when the ledger has locked it.
pub open spec fn locked(order: PlaceOrder, reply: Reply, asset: Asset) -> int {
    if order.stage is Reserving && reply == Reply::Transferred {
        stake(order, asset)
    } else {
        0
    }
}

/// What leaves custody of `asset` when the host reports `reply`: the two
/// legs of a fill, when the ledger has delivered them.
pub open spec fn paid(order: PlaceOrder, reply: Reply, asset: Asset) -> int {
    match order.stage {
        Stage::Settling { maker, quantity } if reply == Reply::Transferred => match asset {
            Asset::Base => quantity as int,
            Asset::Quote => maker.price * quantity,
        },
        _ => 0,
    }
}

/// What a buyer had locked for a fill beyond what the fill cost: the fill
/// executes at the maker's price, the buyer locked its own limit. This part
/// stays in custody and is held for nobody.
pub open spec fn surplus(order: PlaceOrder, reply: Reply, asset: Asset) -> int {
    match order.stage {
        Stage::Settling { maker, quantity } if reply == Reply::Transferred && order.side
            == Side::Buy && asset == Asset::Quote => (order.price - maker.price) * quantity,
        _ => 0,
    }
}

/// Conservation of funds: a step that does not abort neither makes nor
/// loses funds. Of each asset, what custody held for the book and for the
/// placement, together with what the step locked, is what custody holds
/// afterwards together with what the step paid out and the buyer's surplus.
/// The surplus is never negative: custody never pays out more than it holds
/// for the orders involved.
pub proof fn steps_conserve_funds(order: PlaceOrder, book: Book, reply: Reply, asset: Asset)
    requires
        order.inv(book),
        !(order.step(book, reply).order.stage is Aborted),
    ensures
        order.step(book, reply).book.owed(asset) + held(order.step(book, reply).order, asset)
            + paid(order, reply, asset) + surplus(order, reply, asset) == book.owed(asset) + held(
            order,
            asset,
        ) + locked(order, reply, asset),
        surplus(order, reply, asset) >= 0,
{
    let opposite = order.side.opposite();
    match order.stage {
        Stage::Reserving => {
            seeking_conserves_funds(order, book, asset);
        },
        Stage::Resolving { maker } => {},
        Stage::Settling { maker, quantity } => {
            let left = (maker.quantity - quantity) as u64;
            let taker = PlaceOrder { remaining: (order.remaining - quantity) as u64, ..order };
            let p = order.price as int;
            let m = maker.price as int;
            let q = quantity as int;
            assert(p * (order.remaining - q) == p * order.remaining - p * q) by (nonlinear_arith);
            assert(m * (maker.quantity - q) == m * maker.quantity - m * q) by (nonlinear_arith);
            assert((p - m) * q == p * q - m * q) by (nonlinear_arith);
            assert(p >= m && q >= 0 ==> (p - m) * q >= 0) by (nonlinear_arith);
            if left > 0 {
                lemma_matching(order, book, maker, left);
                let back = book.insert(opposite, maker.with_quantity(left));
                let s = book.side(opposite);
                lemma_rank_splits(opposite, s, book.order_id_counter, maker.with_quantity(left));
                lemma_locked_funds_insert(
                    opposite,
                    s,
                    rank(opposite, s, maker.with_quantity(left)),
                    maker.with_quantity(left),
                    asset,
                );
                assert(back.side(order.side) == book.side(order.side));
                seeking_conserves_funds(taker, back, asset);
            } else {
                lemma_matching(order, book, maker, 1);
                seeking_conserves_funds(taker, book, asset);
            }
        },
        Stage::Done { order_id } => {},
        Stage::Aborted { error } => {},
    }
}

/// The search for the next maker moves funds between what custody holds
/// for the book and what it holds for the placement, and changes no total.
proof fn seeking_conserves_funds(order: PlaceOrder, book: Book, asset: Asset)
    requires
        book.wf(),
        book.order_id_counter < u64::MAX,
        order.price > 0,
        order.remaining <= order.quantity,
    ensures
        order.seek(book).book.owed(asset) + held(order.seek(book).order, asset) == book.owed(asset)
            + stake(order, asset),
{
    let opposite = order.side.opposite();
    if order.remaining > 0 && book.crossed_by(order.side, order.price) {
        let s = book.side(opposite);
        assert(s.drop_first() =~= s.remove(0));
        lemma_locked_funds_remove(opposite, s, 0, asset);
    } else if order.remaining > 0 {
        let issued = book.issue_id();
        let s = issued.side(order.side);
        let rest = Order {
            owner: order.owner,
            price: order.price,
            quantity: order.remaining,
            order_id: issued.order_id_counter,
        };
        lemma_rank_splits(order.side, s, issued.order_id_counter, rest);
        lemma_locked_funds_insert(order.side, s, rank(order.side, s, rest), rest, asset);
    } else {
        assert(order.price * order.remaining == 0) by (nonlinear_arith)
            requires
                order.remaining == 0,
        ;
    }
}

/// Conservation of funds on cancel: a cancellation that succeeds refunds
/// exactly what custody held for the cancelled order, in the asset in which
/// it was held, and leaves what custody holds of the other asset alone.
pub proof fn cancel_conserves_funds(book: Book, requester: Pubkey, order_id: u64, asset: Asset)
    requires
        book.wf(),
    ensures
        match book.cancel_result(requester, order_id) {
            Ok(transfer) => book.cancel(requester, order_id).owed(asset) + if asset
                == transfer.asset {
                transfer.amount as int
            } else {
                0
            } == book.owed(asset),
            Err(error) => book.cancel(requester, order_id) == book,
        },
{
    lemma_position_finds(book.bids, order_id);
    lemma_position_finds(book.asks, order_id);
    match book.locate(order_id) {
        Some((side, o)) => {
            if book.cancel_result(requester, order_id) is Ok {
                lemma_locked_funds_remove(
                    side,
                    book.side(side),
                    position(book.side(side), order_id),
                    asset,
                );
                assert(book.cancel(requester, order_id).side(side.opposite()) == book.side(
                    side.opposite(),
                ));
            }
        },
        None => {},
    }
}

/// Makers are taken in priority order: the maker that a placement takes
/// next, once the fill against the maker in hand is delivered, is one that
/// the maker in hand outranked.
pub proof fn makers_are_taken_in_priority_order(order: PlaceOrder, book: Book)
    requires
        order.inv(book),
        order.stage is Settling,
        order.step(book, Reply::Transferred).order.stage is Resolving,
    ensures
        outranks(
            order.side.opposite(),
            order.stage->Settling_maker,
            order.step(book, Reply::Transferred).order.stage->Resolving_maker,
        ),
        order.step(book, Reply::Transferred).order.stage->Resolving_maker == book.side(
            order.side.opposite(),
        )[0],
{
    let maker = order.stage->Settling_maker;
    let quantity = order.stage->Settling_quantity;
    let left = (maker.quantity - quantity) as u64;
    if left > 0 {
        lemma_matching(order, book, maker, left);
    } else {
        maker_has_priority(order, book, 0);
    }
}

/// Whether every amount that custody holds for the book and the placement
/// fits in 64 bits: the full price of each bid, of the taker's purchase, and
/// of a bid that is out of the book to be matched.
pub open spec fn amounts_fit(order: PlaceOrder, book: Book) -> bool {
    &&& funded(book.bids)
    &&& order.side == Side::Buy ==> order.price * order.quantity <= u64::MAX
    &&& order.side == Side::Sell ==> match order.stage {
        Stage::Resolving { maker } => maker.price * maker.quantity <= u64::MAX,
        Stage::Settling { maker, quantity } => maker.price * maker.quantity <= u64::MAX,
        _ => true,
    }
}

/// The search for the next maker keeps every amount within 64 bits.
proof fn seeking_keeps_amounts_fit(order: PlaceOrder, book: Book)
    requires
        book.wf(),
        book.order_id_counter < u64::MAX,
        order.price > 0,
        order.remaining <= order.quantity,
        funded(book.bids),
        order.side == Side::Buy ==> order.price * order.quantity <= u64::MAX,
    ensures
        amounts_fit(order.seek(book).order, order.seek(book).book),
{
    let opposite = order.side.opposite();
    if order.remaining > 0 && book.crossed_by(order.side, order.price) {
        let s = book.side(opposite);
        assert(s.drop_first() =~= s.remove(0));
        if opposite == Side::Buy {
            lemma_funded_remove(s, 0);
        }
    } else if order.remaining > 0 {
        if order.side == Side::Buy {
            let issued = book.issue_id();
            let s = issued.side(order.side);
            let rest = Order {
                owner: order.owner,
                price: order.price,
                quantity: order.remaining,
                order_id: issued.order_id_counter,
            };
            assert(order.price * order.remaining <= order.price * order.quantity)
                by (nonlinear_arith)
                requires
                    order.remaining <= order.quantity,
            ;
            lemma_rank_splits(order.side, s, issued.order_id_counter, rest);
            lemma_funded_insert(s, rank(order.side, s, rest), rest);
        }
    }
}

/// Once the taker's funds are locked, no amount overflows: if every amount
/// that custody holds fits in 64 bits, it still does after any step, and the
/// step does not fail with `CalculationError`.
pub proof fn steps_keep_amounts_within_bounds(order: PlaceOrder, book: Book, reply: Reply)
    requires
        order.inv(book),
        amounts_fit(order, book),
    ensures
        amounts_fit(order.step(book, reply).order, order.step(book, reply).book),
        order.stage is Aborted || order.step(book, reply).action != Action::Abort(
            DexError::CalculationError,
        ),
{
    let opposite = order.side.opposite();
    match order.stage {
        Stage::Reserving => {
            seeking_keeps_amounts_fit(order, book);
        },
        Stage::Resolving { maker } => {
            let quantity = order.fill_quantity(maker);
            if order.side == Side::Buy {
                assert(maker.price * quantity <= order.price * order.quantity) by (nonlinear_arith)
                    requires
                        maker.price <= order.price,
                        quantity <= order.quantity,
                ;
            } else {
                assert(maker.price * quantity <= maker.price * maker.quantity) by (nonlinear_arith)
                    requires
                        quantity <= maker.quantity,
                ;
            }
        },
        Stage::Settling { maker, quantity } => {
            if reply == Reply::Transferred {
                let left = (maker.quantity - quantity) as u64;
                let taker = PlaceOrder { remaining: (order.remaining - quantity) as u64, ..order };
                if left > 0 {
                    lemma_matching(order, book, maker, left);
                    let part = maker.with_quantity(left);
                    let back = book.insert(opposite, part);
                    if opposite == Side::Buy {
                        let s = book.side(opposite);
                        assert(maker.price * left <= maker.price * maker.quantity)
                            by (nonlinear_arith)
                            requires
                                left <= maker.quantity,
                        ;
                        lemma_rank_splits(opposite, s, book.order_id_counter, part);
                        lemma_funded_insert(s, rank(opposite, s, part), part);
                    }
                    seeking_keeps_amounts_fit(taker, back);
                } else {
                    lemma_matching(order, book, maker, 1);
                    seeking_keeps_amounts_fit(taker, book);
                }
            }
        },
        Stage::Done { order_id } => {},
        Stage::Aborted { error } => {},
    }
}

/// A cancellation in a book whose bids are funded does not fail with
/// `CalculationError`, and leaves the bids funded.
pub proof fn cancel_keeps_amounts_within_bounds(book: Book, requester: Pubkey, order_id: u64)
    requires
        funded(book.bids),
    ensures
        funded(book.cancel(requester, order_id).bids),
        book.cancel_result(requester, order_id) != Err::<Transfer, DexError>(
            DexError::CalculationError,
        ),
{
    lemma_position_finds(book.bids, order_id);
    if has_id(book.bids, order_id) && book.cancel_result(requester, order_id) is Ok {
        lemma_funded_remove(book.bids, position(book.bids, order_id));
    }
}

/// Whatever the host reports, a placement whose amounts fit keeps them
/// fitting.
proof fn runs_keep_amounts_fit(order: PlaceOrder, book: Book, replies: Seq<Reply>)
    requires
        order.inv(book),
        amounts_fit(order, book),
    ensures
        amounts_fit(run(order, book, replies).0, run(order, book, replies).1),
    decreases replies.len(),
{
    if replies.len() > 0 {
        lemma_step_keeps_inv(order, book, replies[0]);
        steps_keep_amounts_within_bounds(order, book, replies[0]);
        let next = order.step(book, replies[0]);
        runs_keep_amounts_fit(next.order, next.book, replies.drop_first());
    }
}

/// Whatever the host reports, and however many reports it makes, the book
/// and the placement stay sound.
pub proof fn runs_keep_inv(order: PlaceOrder, book: Book, replies: Seq<Reply>)
    requires
        order.inv(book),
    ensures
        run(order, book, replies).0.inv(run(order, book, replies).1),
    decreases replies.len(),
{
    if replies.len() > 0 {
        lemma_step_keeps_inv(order, book, replies[0]);
        let next = order.step(book, replies[0]);
        runs_keep_inv(next.order, next.book, replies.drop_first());
    }
}

/// Every book that can come about is well formed: whatever placements and
/// cancellations a book has served since it was opened, and whatever the
/// host reported meanwhile, no bid reaches an ask, every resting order is
/// live, each side stands in price-time priority, and the full price of
/// every bid fits in 64 bits.
pub proof fn every_reachable_book_is_well_formed(
    base_mint: Pubkey,
    quote_mint: Pubkey,
    requests: Seq<Request>,
)
    ensures
        history(base_mint, quote_mint, requests).wf(),
        funded(history(base_mint, quote_mint, requests).bids),
    decreases requests.len(),
{
    if requests.len() > 0 {
        let before = history(base_mint, quote_mint, requests.drop_last());
        every_reachable_book_is_well_formed(base_mint, quote_mint, requests.drop_last());
        match requests.last() {
            Request::Place { owner, side, price, quantity, replies } => {
                if accepts(before, side, price, quantity) {
                    let opened = PlaceOrder::opened(owner, side, price, quantity);
                    runs_keep_inv(opened, before, replies);
                    runs_keep_amounts_fit(opened, before, replies);
                }
            },
            Request::Cancel { requester, order_id } => {
                cancel_keeps_book_well_formed(before, requester, order_id);
                cancel_keeps_amounts_within_bounds(before, requester, order_id);
            },
        }
    }
}

} // verus!
