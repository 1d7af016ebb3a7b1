//! The mathematical model of an order book: two sequences of resting orders,
//! best first, and the counter that issues order identifiers.

use crate::key::Pubkey;
use crate::ledger::Asset;
use crate::order::{crosses, outranks, Order, Side};
use vstd::prelude::*;

verus! {

/// What a book is, apart from how it is stored.
pub struct Book {
    pub base_mint: Pubkey,
    pub quote_mint: Pubkey,
    /// The resting buy orders, best first.
    pub bids: Seq<Order>,
    /// The resting sell orders, best first.
    pub asks: Seq<Order>,
    /// The last identifier issued.
    pub order_id_counter: u64,
}

/// Whether an order with identifier `id` is among `s`.
pub open spec fn has_id(s: Seq<Order>, id: u64) -> bool {
    exists|i: int| 0 <= i < s.len() && (#[trigger] s[i]).order_id == id
}

/// One side of a well-formed book: every order is live and carries an
/// identifier that the counter has issued, no identifier occurs twice, and
/// the orders stand in price-time priority, best first.
pub open spec fn side_wf(side: Side, s: Seq<Order>, counter: u64) -> bool {
    &&& forall|i: int| 0 <= i < s.len() ==> (#[trigger] s[i]).live() && s[i].order_id <= counter
    &&& forall|i: int, j: int|
        0 <= i < j < s.len() ==> outranks(side, #[trigger] s[i], #[trigger] s[j])
            && s[i].order_id != s[j].order_id
}

/// How many orders of `s` are matched before `o`: the place at which `o`
/// comes to rest.
pub open spec fn rank(side: Side, s: Seq<Order>, o: Order) -> int
    decreases s.len(),
{
    if s.len() == 0 {
        0
    } else {
        rank(side, s.drop_last(), o) + if outranks(side, s.last(), o) {
            1int
        } else {
            0int
        }
    }
}

/// The index of the first order of `s` with identifier `id`, or the length
/// of `s` if there is none.
pub open spec fn position(s: Seq<Order>, id: u64) -> int
    decreases s.len(),
{
    if s.len() == 0 {
        0
    } else if s[0].order_id == id {
        0
    } else {
        1 + position(s.drop_first(), id)
    }
}

/// The sum of the remaining quantities of the orders of `s`.
pub open spec fn open_quantity(s: Seq<Order>) -> int
    decreases s.len(),
{
    if s.len() == 0 {
        0
    } else {
        open_quantity(s.drop_last()) + s.last().quantity
    }
}

/// What custody holds of `asset` for the order `o` resting on `side`: the
/// full price of a bid in the quote asset, the quantity of an ask in the
/// base asset.
pub open spec fn backing(side: Side, o: Order, asset: Asset) -> int {
    match (side, asset) {
        (Side::Buy, Asset::Quote) => o.price * o.quantity,
        (Side::Sell, Asset::Base) => o.quantity as int,
        _ => 0,
    }
}

/// What custody holds of `asset` for all the orders `s` resting on `side`.
pub open spec fn locked_funds(side: Side, s: Seq<Order>, asset: Asset) -> int
    decreases s.len(),
{
    if s.len() == 0 {
        0
    } else {
        locked_funds(side, s.drop_last(), asset) + backing(side, s.last(), asset)
    }
}

/// Whether what custody holds for each of the bids `s` fits in 64 bits.
pub open spec fn funded(s: Seq<Order>) -> bool {
    forall|i: int| 0 <= i < s.len() ==> (#[trigger] s[i]).price * s[i].quantity <= u64::MAX
}

impl Book {
    /// A book of the two assets with no resting order and no identifier
    /// issued yet.
    pub open spec fn empty(base_mint: Pubkey, quote_mint: Pubkey) -> Book {
        Book { base_mint, quote_mint, bids: Seq::empty(), asks: Seq::empty(), order_id_counter: 0 }
    }

    /// The resting orders of `side`, best first.
    pub open spec fn side(self, side: Side) -> Seq<Order> {
        match side {
            Side::Buy => self.bids,
            Side::Sell => self.asks,
        }
    }

    /// The book with the orders of `side` replaced by `s`.
    pub open spec fn with_side(self, side: Side, s: Seq<Order>) -> Book {
        match side {
            Side::Buy => Book { bids: s, ..self },
            Side::Sell => Book { asks: s, ..self },
        }
    }

    /// Both sides are well formed, no identifier rests on both sides, and
    /// the best bid is below the best ask.
    pub open spec fn wf(self) -> bool {
        &&& side_wf(Side::Buy, self.bids, self.order_id_counter)
        &&& side_wf(Side::Sell, self.asks, self.order_id_counter)
        &&& forall|i: int, j: int|
            0 <= i < self.bids.len() && 0 <= j < self.asks.len() ==> (#[trigger] self.bids[i]).order_id
                != (#[trigger] self.asks[j]).order_id
        &&& self.bids.len() > 0 && self.asks.len() > 0 ==> self.bids[0].price < self.asks[0].price
    }

    /// The order of `side` that is matched first.
    pub open spec fn best(self, side: Side) -> Option<Order> {
        if self.side(side).len() > 0 {
            Some(self.side(side)[0])
        } else {
            None
        }
    }

    /// The price of the order of `side` that is matched first.
    pub open spec fn best_price(self, side: Side) -> Option<u64> {
        if self.side(side).len() > 0 {
            Some(self.side(side)[0].price)
        } else {
            None
        }
    }

    /// Whether an order with identifier `id` rests on either side.
    pub open spec fn contains_id(self, id: u64) -> bool {
        has_id(self.bids, id) || has_id(self.asks, id)
    }

    /// Whether a taker on `side` with limit price `limit` finds a resting
    /// order to trade against.
    pub open spec fn crossed_by(self, side: Side, limit: u64) -> bool {
        let resting = self.side(side.opposite());
        resting.len() > 0 && crosses(side, limit, resting[0].price)
    }

    /// Whether `o` may come to rest on `side`: it is live, its identifier was
    /// issued and is not in the book, and it trades against nothing.
    pub open spec fn admits(self, side: Side, o: Order) -> bool {
        &&& o.live()
        &&& o.order_id <= self.order_id_counter
        &&& !self.contains_id(o.order_id)
        &&& !self.crossed_by(side, o.price)
    }

    /// The book with `o` resting on `side`, behind the orders that are
    /// matched before it and ahead of the others.
    pub open spec fn insert(self, side: Side, o: Order) -> Book {
        let s = self.side(side);
        self.with_side(side, s.insert(rank(side, s, o), o))
    }

    /// The book without the best order of `side`.
    pub open spec fn pop_best(self, side: Side) -> Book {
        self.with_side(side, self.side(side).drop_first())
    }

    /// The order of `side` that carries `id`, if one rests there.
    pub open spec fn resting(self, side: Side, id: u64) -> Option<Order> {
        let s = self.side(side);
        if has_id(s, id) {
            Some(s[position(s, id)])
        } else {
            None
        }
    }

    /// The book without the order of `side` that carries `id`.
    pub open spec fn remove(self, side: Side, id: u64) -> Book {
        let s = self.side(side);
        self.with_side(side, s.remove(position(s, id)))
    }

    /// What custody holds of `asset` for the resting orders of both sides.
    pub open spec fn owed(self, asset: Asset) -> int {
        locked_funds(Side::Buy, self.bids, asset) + locked_funds(Side::Sell, self.asks, asset)
    }

    /// The book after one more identifier was issued.
    pub open spec fn issue_id(self) -> Book {
        Book { order_id_counter: (self.order_id_counter + 1) as u64, ..self }
    }
}

/// In a well-formed side the orders that are matched before `o` are exactly
/// the first `rank` ones.
pub proof fn lemma_rank_splits(side: Side, s: Seq<Order>, counter: u64, o: Order)
    requires
        side_wf(side, s, counter),
    ensures
        0 <= rank(side, s, o) <= s.len(),
        forall|j: int| 0 <= j < rank(side, s, o) ==> outranks(side, #[trigger] s[j], o),
        forall|j: int| rank(side, s, o) <= j < s.len() ==> !outranks(side, #[trigger] s[j], o),
    decreases s.len(),
{
    if s.len() > 0 {
        let t = s.drop_last();
        assert(side_wf(side, t, counter)) by {
            assert forall|i: int| 0 <= i < t.len() implies (#[trigger] t[i]).live() && t[i].order_id
                <= counter by {
                assert(t[i] == s[i]);
            }
            assert forall|i: int, j: int| 0 <= i < j < t.len() implies outranks(
                side,
                #[trigger] t[i],
                #[trigger] t[j],
            ) && t[i].order_id != t[j].order_id by {
                assert(t[i] == s[i] && t[j] == s[j]);
            }
        }
        lemma_rank_splits(side, t, counter, o);
        let r = rank(side, t, o);
        assert forall|j: int| 0 <= j < rank(side, s, o) implies outranks(side, #[trigger] s[j], o) by {
            if j < r {
                assert(t[j] == s[j]);
            } else {
                // Only the last order can stand at or behind `r` and still be counted.
                assert(outranks(side, s.last(), o));
                if j < s.len() - 1 {
                    assert(t[j] == s[j]);
                    assert(outranks(side, s[j], s[s.len() - 1]));
                }
            }
        }
        assert forall|j: int| rank(side, s, o) <= j < s.len() implies !outranks(
            side,
            #[trigger] s[j],
            o,
        ) by {
            if j < s.len() - 1 {
                assert(t[j] == s[j]);
                if outranks(side, s.last(), o) {
                    assert(r <= j - 1 || r == t.len());
                    if r < t.len() {
                        assert(t[r] == s[r]);
                        assert(outranks(side, s[r], s[s.len() - 1]));
                    }
                }
            }
        }
    }
}

/// The place that a scan from the front finds is the rank.
pub proof fn lemma_rank_is(side: Side, s: Seq<Order>, counter: u64, o: Order, i: int)
    requires
        side_wf(side, s, counter),
        0 <= i <= s.len(),
        forall|j: int| 0 <= j < i ==> outranks(side, #[trigger] s[j], o),
        i < s.len() ==> !outranks(side, s[i], o),
    ensures
        rank(side, s, o) == i,
{
    lemma_rank_splits(side, s, counter, o);
    let r = rank(side, s, o);
    if r < i {
        assert(outranks(side, s[r], o));
    } else if r > i {
        assert(outranks(side, s[i], o));
    }
}

/// The index that a scan from the front finds is the position.
pub proof fn lemma_position_is(s: Seq<Order>, id: u64, i: int)
    requires
        0 <= i <= s.len(),
        forall|j: int| 0 <= j < i ==> (#[trigger] s[j]).order_id != id,
        i < s.len() ==> s[i].order_id == id,
    ensures
        position(s, id) == i,
    decreases s.len(),
{
    if s.len() > 0 {
        if s[0].order_id != id {
            let t = s.drop_first();
            assert forall|j: int| 0 <= j < i - 1 implies (#[trigger] t[j]).order_id != id by {
                assert(t[j] == s[j + 1]);
            }
            if i < s.len() {
                assert(t[i - 1] == s[i]);
            }
            lemma_position_is(t, id, i - 1);
        }
    }
}

/// The position is an index of `s` exactly when `id` is among `s`, and then
/// it is the first index that carries `id`.
pub proof fn lemma_position_finds(s: Seq<Order>, id: u64)
    ensures
        0 <= position(s, id) <= s.len(),
        position(s, id) < s.len() <==> has_id(s, id),
        position(s, id) < s.len() ==> s[position(s, id)].order_id == id,
        forall|j: int| 0 <= j < position(s, id) ==> (#[trigger] s[j]).order_id != id,
    decreases s.len(),
{
    if s.len() > 0 {
        if s[0].order_id != id {
            let t = s.drop_first();
            lemma_position_finds(t, id);
            let p = position(t, id);
            assert forall|j: int| 0 <= j < p + 1 implies (#[trigger] s[j]).order_id != id by {
                if j > 0 {
                    assert(t[j - 1] == s[j]);
                }
            }
            if p < t.len() {
                assert(t[p] == s[p + 1]);
            }
            if has_id(s, id) {
                let k = choose|k: int| 0 <= k < s.len() && (#[trigger] s[k]).order_id == id;
                assert(t[k - 1] == s[k]);
            }
        }
    }
}

/// An order that the book admits comes to rest without breaking the book.
pub proof fn lemma_insert_wf(book: Book, side: Side, o: Order)
    requires
        book.wf(),
        book.admits(side, o),
    ensures
        book.insert(side, o).wf(),
        book.insert(side, o).side(side).len() == book.side(side).len() + 1,
{
    let s = book.side(side);
    let c = book.order_id_counter;
    let k = rank(side, s, o);
    let t = s.insert(k, o);
    lemma_rank_splits(side, s, c, o);
    assert forall|i: int| 0 <= i < t.len() implies (#[trigger] t[i]).live() && t[i].order_id
        <= c by {
        if i < k {
            assert(t[i] == s[i]);
        } else if i > k {
            assert(t[i] == s[i - 1]);
        }
    }
    assert forall|i: int, j: int| 0 <= i < j < t.len() implies outranks(
        side,
        #[trigger] t[i],
        #[trigger] t[j],
    ) && t[i].order_id != t[j].order_id by {
        let a = if i < k {
            i
        } else {
            i - 1
        };
        let b = if j < k {
            j
        } else {
            j - 1
        };
        if i != k {
            assert(t[i] == s[a]);
        }
        if j != k {
            assert(t[j] == s[b]);
        }
        if i == k {
            assert(!outranks(side, s[b], o));
            assert(s[b].order_id != o.order_id);
        } else if j == k {
            assert(outranks(side, s[a], o));
            assert(s[a].order_id != o.order_id);
        } else {
            assert(outranks(side, s[a], s[b]));
        }
    }
    let other = book.side(side.opposite());
    assert forall|i: int, j: int| 0 <= i < t.len() && 0 <= j < other.len() implies (
    #[trigger] t[i]).order_id != (#[trigger] other[j]).order_id by {
        if i < k {
            assert(t[i] == s[i]);
        } else if i > k {
            assert(t[i] == s[i - 1]);
        }
    }
    if k > 0 {
        assert(t[0] == s[0]);
    }
}

/// Taking the best order of a side away leaves a well-formed book.
pub proof fn lemma_pop_best_wf(book: Book, side: Side)
    requires
        book.wf(),
        book.side(side).len() > 0,
    ensures
        book.pop_best(side).wf(),
        !book.pop_best(side).contains_id(book.side(side)[0].order_id),
{
    lemma_remove_at_wf(book, side, 0);
    assert(book.side(side).remove(0) =~= book.side(side).drop_first());
}

/// Taking any one order away leaves a well-formed book in which the
/// identifier of that order no longer occurs.
pub proof fn lemma_remove_at_wf(book: Book, side: Side, k: int)
    requires
        book.wf(),
        0 <= k < book.side(side).len(),
    ensures
        book.with_side(side, book.side(side).remove(k)).wf(),
        !book.with_side(side, book.side(side).remove(k)).contains_id(
            book.side(side)[k].order_id,
        ),
{
    let s = book.side(side);
    let c = book.order_id_counter;
    let t = s.remove(k);
    let other = book.side(side.opposite());
    assert forall|i: int| 0 <= i < t.len() implies (#[trigger] t[i]).live() && t[i].order_id
        <= c && t[i].order_id != s[k].order_id by {
        if i < k {
            assert(t[i] == s[i]);
        } else {
            assert(t[i] == s[i + 1]);
        }
    }
    assert forall|i: int, j: int| 0 <= i < j < t.len() implies outranks(
        side,
        #[trigger] t[i],
        #[trigger] t[j],
    ) && t[i].order_id != t[j].order_id by {
        let a = if i < k {
            i
        } else {
            i + 1
        };
        let b = if j < k {
            j
        } else {
            j + 1
        };
        assert(t[i] == s[a] && t[j] == s[b]);
        assert(outranks(side, s[a], s[b]));
    }
    assert forall|i: int, j: int| 0 <= i < t.len() && 0 <= j < other.len() implies (
    #[trigger] t[i]).order_id != (#[trigger] other[j]).order_id by {
        if i < k {
            assert(t[i] == s[i]);
        } else {
            assert(t[i] == s[i + 1]);
        }
    }
    if t.len() > 0 && other.len() > 0 {
        if k == 0 {
            assert(t[0] == s[1]);
            assert(outranks(side, s[0], s[1]));
        } else {
            assert(t[0] == s[0]);
        }
    }
    assert forall|j: int| 0 <= j < other.len() implies (#[trigger] other[j]).order_id
        != s[k].order_id by {}
}

/// An order that comes to rest adds its quantity to the side's total.
pub proof fn lemma_open_quantity_insert(s: Seq<Order>, k: int, o: Order)
    requires
        0 <= k <= s.len(),
    ensures
        open_quantity(s.insert(k, o)) == open_quantity(s) + o.quantity,
    decreases s.len(),
{
    let t = s.insert(k, o);
    if k == s.len() {
        assert(t.drop_last() =~= s);
    } else {
        assert(t.drop_last() =~= s.drop_last().insert(k, o));
        assert(t.last() == s.last());
        lemma_open_quantity_insert(s.drop_last(), k, o);
    }
}

/// An order that leaves takes its quantity off the side's total.
pub proof fn lemma_open_quantity_remove(s: Seq<Order>, k: int)
    requires
        0 <= k < s.len(),
    ensures
        open_quantity(s.remove(k)) == open_quantity(s) - s[k].quantity,
    decreases s.len(),
{
    let t = s.remove(k);
    if k == s.len() - 1 {
        assert(t =~= s.drop_last());
    } else {
        assert(t.drop_last() =~= s.drop_last().remove(k));
        assert(t.last() == s.last());
        lemma_open_quantity_remove(s.drop_last(), k);
    }
}

/// The identifiers left after one order was taken away were there before.
pub proof fn lemma_has_id_remove(s: Seq<Order>, k: int, id: u64)
    requires
        0 <= k < s.len(),
        has_id(s.remove(k), id),
    ensures
        has_id(s, id),
{
    let t = s.remove(k);
    let i = choose|i: int| 0 <= i < t.len() && (#[trigger] t[i]).order_id == id;
    if i < k {
        assert(s[i] == t[i]);
    } else {
        assert(s[i + 1] == t[i]);
    }
}

/// The identifiers present after an order came to rest are its own and
/// those that were there before.
pub proof fn lemma_has_id_insert(s: Seq<Order>, k: int, o: Order, id: u64)
    requires
        0 <= k <= s.len(),
        has_id(s.insert(k, o), id),
    ensures
        id == o.order_id || has_id(s, id),
{
    let t = s.insert(k, o);
    let i = choose|i: int| 0 <= i < t.len() && (#[trigger] t[i]).order_id == id;
    if i < k {
        assert(s[i] == t[i]);
    } else if i > k {
        assert(s[i - 1] == t[i]);
    }
}

/// An order that comes to rest adds its backing to what custody holds for
/// its side.
pub proof fn lemma_locked_funds_insert(side: Side, s: Seq<Order>, k: int, o: Order, asset: Asset)
    requires
        0 <= k <= s.len(),
    ensures
        locked_funds(side, s.insert(k, o), asset) == locked_funds(side, s, asset) + backing(
            side,
            o,
            asset,
        ),
    decreases s.len(),
{
    let t = s.insert(k, o);
    if k == s.len() {
        assert(t.drop_last() =~= s);
    } else {
        assert(t.drop_last() =~= s.drop_last().insert(k, o));
        assert(t.last() == s.last());
        lemma_locked_funds_insert(side, s.drop_last(), k, o, asset);
    }
}

/// An order that leaves takes its backing off what custody holds for its
/// side.
pub proof fn lemma_locked_funds_remove(side: Side, s: Seq<Order>, k: int, asset: Asset)
    requires
        0 <= k < s.len(),
    ensures
        locked_funds(side, s.remove(k), asset) == locked_funds(side, s, asset) - backing(
            side,
            s[k],
            asset,
        ),
    decreases s.len(),
{
    let t = s.remove(k);
    if k == s.len() - 1 {
        assert(t =~= s.drop_last());
    } else {
        assert(t.drop_last() =~= s.drop_last().remove(k));
        assert(t.last() == s.last());
        lemma_locked_funds_remove(side, s.drop_last(), k, asset);
    }
}

/// Bids stay funded when a funded bid comes to rest among them.
pub proof fn lemma_funded_insert(s: Seq<Order>, k: int, o: Order)
    requires
        funded(s),
        0 <= k <= s.len(),
        o.price * o.quantity <= u64::MAX,
    ensures
        funded(s.insert(k, o)),
{
    let t = s.insert(k, o);
    assert forall|i: int| 0 <= i < t.len() implies (#[trigger] t[i]).price * t[i].quantity
        <= u64::MAX by {
        if i < k {
            assert(t[i] == s[i]);
        } else if i > k {
            assert(t[i] == s[i - 1]);
        }
    }
}

/// Bids stay funded when one of them leaves.
pub proof fn lemma_funded_remove(s: Seq<Order>, k: int)
    requires
        funded(s),
        0 <= k < s.len(),
    ensures
        funded(s.remove(k)),
{
    let t = s.remove(k);
    assert forall|i: int| 0 <= i < t.len() implies (#[trigger] t[i]).price * t[i].quantity
        <= u64::MAX by {
        if i < k {
            assert(t[i] == s[i]);
        } else {
            assert(t[i] == s[i + 1]);
        }
    }
}

} // verus!
