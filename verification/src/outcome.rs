//! What a placement comes to when the host does all that it is asked: the
//! ledger moves every amount and every maker has its account.

use crate::laws::accepts;
use crate::model::{funded, lemma_funded_insert, lemma_funded_remove, lemma_pop_best_wf, Book};
use crate::order::{crosses, Order, Side};
use crate::place::{lemma_matching, PlaceOrder, Reply, Stage};
use vstd::prelude::*;

verus! {

/// The report of a host that did what it was last asked.
pub open spec fn honest(order: PlaceOrder) -> Reply {
    match order.stage {
        Stage::Resolving { maker } => Reply::Account(maker.owner),
        _ => Reply::Transferred,
    }
}

/// The placement and the book after `steps` steps with such a host.
pub open spec fn carry_out(order: PlaceOrder, book: Book, steps: nat) -> (PlaceOrder, Book)
    decreases steps,
{
    if steps == 0 {
        (order, book)
    } else {
        let next = order.step(book, honest(order));
        carry_out(next.order, next.book, (steps - 1) as nat)
    }
}

/// How much of `want` a taker on `side` with limit price `limit` gets from
/// the resting orders `s`, best first: it takes from the head while the head
/// is priced within its limit and it wants more.
pub open spec fn fillable(side: Side, limit: u64, want: int, s: Seq<Order>) -> int
    decreases s.len(),
{
    if want <= 0 || s.len() == 0 || !crosses(side, limit, s[0].price) {
        0
    } else if s[0].quantity >= want {
        want
    } else {
        s[0].quantity + fillable(side, limit, want - s[0].quantity, s.drop_first())
    }
}

/// What is left of the resting orders `s` after that taker: the orders it
/// exhausted are gone, and the one it took only a part of stays at the head
/// with the rest of its quantity.
pub open spec fn drained(side: Side, limit: u64, want: int, s: Seq<Order>) -> Seq<Order>
    decreases s.len(),
{
    if want <= 0 || s.len() == 0 || !crosses(side, limit, s[0].price) {
        s
    } else if s[0].quantity > want {
        seq![s[0].with_quantity((s[0].quantity - want) as u64)] + s.drop_first()
    } else {
        drained(side, limit, want - s[0].quantity, s.drop_first())
    }
}

/// The end of a placement that wants `order.remaining` more from `book`:
/// the opposite side is drained of what the taker gets, and what the taker
/// does not get rests on its own side under the next identifier.
pub open spec fn settled(order: PlaceOrder, book: Book) -> (PlaceOrder, Book) {
    let opposite = order.side.opposite();
    let got = fillable(order.side, order.price, order.remaining as int, book.side(opposite));
    let left = (order.remaining - got) as u64;
    let after = book.with_side(
        opposite,
        drained(order.side, order.price, order.remaining as int, book.side(opposite)),
    );
    if left > 0 {
        let order_id = (book.order_id_counter + 1) as u64;
        let rest = Order { owner: order.owner, price: order.price, quantity: left, order_id };
        (
            PlaceOrder { remaining: left, stage: Stage::Done { order_id: Some(order_id) }, ..order },
            after.issue_id().insert(order.side, rest),
        )
    } else {
        (PlaceOrder { remaining: 0, stage: Stage::Done { order_id: None }, ..order }, after)
    }
}

/// A taker never gets more than it wants, nor a negative quantity.
pub proof fn lemma_fillable_bounds(side: Side, limit: u64, want: int, s: Seq<Order>)
    requires
        want >= 0,
    ensures
        0 <= fillable(side, limit, want, s) <= want,
    decreases s.len(),
{
    if want > 0 && s.len() > 0 && crosses(side, limit, s[0].price) && s[0].quantity < want {
        lemma_fillable_bounds(side, limit, want - s[0].quantity, s.drop_first());
    }
}

/// A placement that is done or aborted stays as it is.
pub proof fn lemma_closed_stays(order: PlaceOrder, book: Book, steps: nat)
    requires
        order.stage is Done || order.stage is Aborted,
    ensures
        carry_out(order, book, steps) == (order, book),
    decreases steps,
{
    if steps > 0 {
        lemma_closed_stays(order, book, (steps - 1) as nat);
    }
}

/// From the search for the next maker on, a placement whose host does all
/// that it is asked ends as `settled` says, within two steps for each
/// resting order of the opposite side.
pub proof fn lemma_seek_settles(order: PlaceOrder, book: Book, steps: nat)
    requires
        book.wf(),
        book.order_id_counter < u64::MAX,
        order.price > 0,
        order.remaining <= order.quantity,
        funded(book.bids),
        order.side == Side::Buy ==> order.price * order.quantity <= u64::MAX,
        order.remaining == 0 || steps >= 2 * book.side(order.side.opposite()).len(),
    ensures
        carry_out(order.seek(book).order, order.seek(book).book, steps) == settled(order, book),
    decreases steps,
{
    let opposite = order.side.opposite();
    let s = book.side(opposite);
    let found = order.seek(book);
    if order.remaining > 0 && book.crossed_by(order.side, order.price) {
        let maker = s[0];
        let quantity = order.fill_quantity(maker);
        let first = found.order.step(found.book, honest(found.order));
        lemma_pop_best_wf(book, opposite);
        assert(seq![maker] + s.drop_first() =~= s);
        assert(found.order.restored(found.book, maker) == book);
        if order.side == Side::Buy {
            assert(maker.price * quantity <= order.price * order.quantity) by (nonlinear_arith)
                requires
                    maker.price <= order.price,
                    quantity <= order.quantity,
            ;
        } else {
            assert(maker.price * quantity <= maker.price * maker.quantity) by (nonlinear_arith)
                requires
                    quantity <= maker.quantity,
            ;
        }
        assert(first.order.stage == Stage::Settling { maker, quantity });
        assert(first.book == found.book);
        let second = first.order.step(first.book, honest(first.order));
        let left = (maker.quantity - quantity) as u64;
        let taker = PlaceOrder { remaining: (order.remaining - quantity) as u64, ..first.order };
        let back = if left > 0 {
            found.book.insert(opposite, maker.with_quantity(left))
        } else {
            found.book
        };
        assert(second == taker.seek(back));
        assert(carry_out(found.order, found.book, steps) == carry_out(
            second.order,
            second.book,
            (steps - 2) as nat,
        )) by {
            assert(carry_out(found.order, found.book, steps) == carry_out(
                first.order,
                first.book,
                (steps - 1) as nat,
            ));
        }
        if opposite == Side::Buy {
            assert(s.drop_first() =~= s.remove(0));
            lemma_funded_remove(s, 0);
        }
        if left > 0 {
            lemma_matching(found.order, found.book, maker, left);
            assert(back.side(opposite) =~= seq![maker.with_quantity(left)] + s.drop_first());
            if opposite == Side::Buy {
                assert(maker.price * left <= maker.price * maker.quantity) by (nonlinear_arith)
                    requires
                        left <= maker.quantity,
                ;
                assert(back.side(opposite) =~= s.drop_first().insert(0, maker.with_quantity(left)));
                lemma_funded_insert(s.drop_first(), 0, maker.with_quantity(left));
            }
        }
        lemma_seek_settles(taker, back, (steps - 2) as nat);
        let got = fillable(order.side, order.price, order.remaining as int, s);
        let later = fillable(order.side, order.price, taker.remaining as int, back.side(opposite));
        assert(got == quantity + later);
        assert(drained(order.side, order.price, order.remaining as int, s) =~= drained(
            order.side,
            order.price,
            taker.remaining as int,
            back.side(opposite),
        ));
        assert(back.side(order.side) == book.side(order.side));
        assert(settled(taker, back).1 == settled(order, book).1);
        assert(settled(taker, back).0 == settled(order, book).0);
    } else {
        lemma_closed_stays(found.order, found.book, steps);
    }
}

/// The outcome of a placement whose host does all that it is asked.
///
/// Once the book has taken the placement up, and given two steps for each
/// resting order of the opposite side and one more, the placement is done.
/// The taker got all it wanted that the opposite side offered within its
/// limit, best orders first; the orders it exhausted are gone; the one it
/// took only a part of is still at the head of its side with the rest of its
/// quantity; and what the taker did not get rests on its own side under the
/// next identifier.
pub proof fn honest_placement_settles(
    owner: crate::key::Pubkey,
    side: Side,
    price: u64,
    quantity: u64,
    book: Book,
    steps: nat,
)
    requires
        book.wf(),
        funded(book.bids),
        accepts(book, side, price, quantity),
        steps > 2 * book.side(side.opposite()).len(),
    ensures
        carry_out(PlaceOrder::opened(owner, side, price, quantity), book, steps) == settled(
            PlaceOrder::opened(owner, side, price, quantity),
            book,
        ),
        settled(PlaceOrder::opened(owner, side, price, quantity), book).0.remaining == quantity
            - fillable(side, price, quantity as int, book.side(side.opposite())),
        0 <= fillable(side, price, quantity as int, book.side(side.opposite())) <= quantity,
{
    let opened = PlaceOrder::opened(owner, side, price, quantity);
    lemma_fillable_bounds(side, price, quantity as int, book.side(side.opposite()));
    lemma_seek_settles(opened, book, (steps - 1) as nat);
}

} // verus!
