use orderbook::book::{initialize, Initialize, Orderbook};
use orderbook::cancel::{cancel_order, CancelOrder};
use orderbook::key::Pubkey;
use orderbook::ledger::{Asset, Holder, Transfer};
use orderbook::order::{DexError, Order, Side, TradeEvent};
use orderbook::place::{place_order, Action, PlaceOrder, PlaceOutcome, Reply, Stage};

fn key(tag: u8) -> Pubkey {
    Pubkey::new([tag; 32])
}

fn fresh_book() -> Orderbook {
    initialize(Initialize { base_mint: key(200), quote_mint: key(201) })
}

/// A ledger that records what it was asked and never refuses.
struct Host {
    transfers: Vec<Transfer>,
    events: Vec<TradeEvent>,
}

impl Host {
    fn new() -> Host {
        Host { transfers: Vec::new(), events: Vec::new() }
    }

    /// Drives one placement to its end, as a host whose ledger always
    /// succeeds and whose makers all have their accounts.
    fn place(
        &mut self,
        book: &mut Orderbook,
        owner: Pubkey,
        side: Side,
        price: u64,
        quantity: u64,
    ) -> Result<PlaceOutcome, DexError> {
        let (mut order, reserve) = PlaceOrder::new(owner, side, price, quantity)?;
        self.transfers.push(reserve);
        let mut reply = Reply::Transferred;
        loop {
            match place_order(book, &mut order, reply) {
                Action::Resolve { owner } => reply = Reply::Account(owner),
                Action::Settle { base, quote, event } => {
                    self.transfers.push(base);
                    self.transfers.push(quote);
                    self.events.push(event);
                    reply = Reply::Transferred;
                }
                Action::Done(outcome) => {
                    assert!(order.is_closed());
                    return Ok(outcome);
                }
                Action::Abort(error) => {
                    assert!(order.is_closed());
                    return Err(error);
                }
            }
        }
    }
}

#[test]
fn buy_into_empty_book_rests() {
    let mut book = fresh_book();
    let mut host = Host::new();
    let outcome = host.place(&mut book, key(1), Side::Buy, 100, 10).unwrap();
    assert_eq!(outcome, PlaceOutcome { filled: 0, resting: 10, order_id: Some(1) });
    assert!(host.events.is_empty());
    assert_eq!(
        book.bids,
        vec![Order { owner: key(1), price: 100, quantity: 10, order_id: 1 }]
    );
    assert!(book.asks.is_empty());
    assert_eq!(book.order_id_counter, 1);
    assert_eq!(
        host.transfers,
        vec![Transfer {
            asset: Asset::Quote,
            from: Holder::Party(key(1)),
            to: Holder::Custody,
            amount: 1000
        }]
    );
}

#[test]
fn buy_larger_than_resting_ask_fills_and_rests_remainder() {
    let mut book = fresh_book();
    let mut host = Host::new();
    host.place(&mut book, key(2), Side::Sell, 100, 5).unwrap();
    assert_eq!(
        book.asks,
        vec![Order { owner: key(2), price: 100, quantity: 5, order_id: 1 }]
    );
    let outcome = host.place(&mut book, key(1), Side::Buy, 100, 10).unwrap();
    assert_eq!(outcome, PlaceOutcome { filled: 5, resting: 5, order_id: Some(2) });
    assert_eq!(
        host.events,
        vec![TradeEvent {
            taker: key(1),
            maker: key(2),
            base_mint: key(200),
            quote_mint: key(201),
            quantity: 5,
            price: 100
        }]
    );
    assert_eq!(
        book.bids,
        vec![Order { owner: key(1), price: 100, quantity: 5, order_id: 2 }]
    );
    assert!(book.asks.is_empty());
}

#[test]
fn buy_smaller_than_resting_ask_leaves_maker_resting() {
    let mut book = fresh_book();
    let mut host = Host::new();
    host.place(&mut book, key(2), Side::Sell, 100, 20).unwrap();
    let outcome = host.place(&mut book, key(1), Side::Buy, 100, 5).unwrap();
    assert_eq!(outcome, PlaceOutcome { filled: 5, resting: 0, order_id: None });
    assert_eq!(host.events.len(), 1);
    assert_eq!(host.events[0].quantity, 5);
    assert_eq!(host.events[0].price, 100);
    assert_eq!(
        book.asks,
        vec![Order { owner: key(2), price: 100, quantity: 15, order_id: 1 }]
    );
    assert!(book.bids.is_empty());
    assert_eq!(book.order_id_counter, 1);
}

#[test]
fn cancel_refunds_and_second_cancel_is_not_found() {
    let mut book = fresh_book();
    let mut host = Host::new();
    let outcome = host.place(&mut book, key(1), Side::Buy, 100, 10).unwrap();
    let id = outcome.order_id.unwrap();
    let refund = cancel_order(&mut book, &CancelOrder { owner: key(1) }, id);
    assert_eq!(
        refund,
        Ok(Transfer {
            asset: Asset::Quote,
            from: Holder::Custody,
            to: Holder::Party(key(1)),
            amount: 1000
        })
    );
    assert!(book.bids.is_empty());
    let again = cancel_order(&mut book, &CancelOrder { owner: key(1) }, id);
    assert_eq!(again, Err(DexError::OrderNotFound));
    assert!(book.bids.is_empty());
    assert!(book.asks.is_empty());
}

#[test]
fn overflowing_purchase_is_a_calculation_error() {
    let book = fresh_book();
    let opened = PlaceOrder::new(key(1), Side::Buy, u64::MAX, 2);
    assert_eq!(opened, Err(DexError::CalculationError));
    assert!(book.bids.is_empty());
    assert!(book.asks.is_empty());
    assert_eq!(book.order_id_counter, 0);
    let fits = PlaceOrder::new(key(1), Side::Buy, u64::MAX, 1).unwrap();
    assert_eq!(fits.0.stage, Stage::Reserving);
    assert_eq!(fits.1.amount, u64::MAX);
}

/// The sum of the remaining quantities of a side.
fn open(orders: &[Order]) -> u64 {
    orders.iter().map(|o| o.quantity).sum()
}

#[test]
fn reservation_names_the_funds_to_lock() {
    let (order, reserve) = PlaceOrder::new(key(1), Side::Sell, 7, 30).unwrap();
    assert_eq!(
        order,
        PlaceOrder {
            owner: key(1),
            side: Side::Sell,
            price: 7,
            quantity: 30,
            remaining: 30,
            stage: Stage::Reserving
        }
    );
    assert_eq!(
        reserve,
        Transfer {
            asset: Asset::Base,
            from: Holder::Party(key(1)),
            to: Holder::Custody,
            amount: 30
        }
    );
    assert!(!order.is_closed());
    let (_, reserve) = PlaceOrder::new(key(1), Side::Buy, 7, 30).unwrap();
    assert_eq!(reserve.asset, Asset::Quote);
    assert_eq!(reserve.amount, 210);
    // A sale locks the quantity alone, so no product can overflow.
    assert!(PlaceOrder::new(key(1), Side::Sell, u64::MAX, u64::MAX).is_ok());
    assert_eq!(
        PlaceOrder::new(key(1), Side::Buy, 1 << 32, 1 << 32),
        Err(DexError::CalculationError)
    );
    assert!(PlaceOrder::new(key(1), Side::Buy, (1 << 32) - 1, 1 << 32).is_ok());
}

#[test]
fn refused_reservation_aborts_and_leaves_the_book_untouched() {
    let mut book = fresh_book();
    let mut host = Host::new();
    host.place(&mut book, key(2), Side::Sell, 100, 5).unwrap();
    let before = book.clone();
    let (mut order, _) = PlaceOrder::new(key(1), Side::Buy, 100, 5).unwrap();
    let action = place_order(&mut book, &mut order, Reply::TransferFailed);
    assert_eq!(action, Action::Abort(DexError::TransferError));
    assert_eq!(order.stage, Stage::Aborted { error: DexError::TransferError });
    assert!(order.is_closed());
    assert_eq!(book.bids, before.bids);
    assert_eq!(book.asks, before.asks);
    assert_eq!(book.order_id_counter, before.order_id_counter);
    // A closed placement repeats its last word and changes nothing.
    let action = place_order(&mut book, &mut order, Reply::Transferred);
    assert_eq!(action, Action::Abort(DexError::TransferError));
    assert_eq!(book.asks, before.asks);
}

#[test]
fn each_step_asks_for_the_next_thing() {
    let mut book = fresh_book();
    let mut host = Host::new();
    host.place(&mut book, key(2), Side::Sell, 90, 4).unwrap();
    let maker = Order { owner: key(2), price: 90, quantity: 4, order_id: 1 };
    let (mut order, _) = PlaceOrder::new(key(1), Side::Buy, 100, 10).unwrap();

    let action = place_order(&mut book, &mut order, Reply::Transferred);
    assert_eq!(action, Action::Resolve { owner: key(2) });
    assert_eq!(order.stage, Stage::Resolving { maker });
    assert!(book.asks.is_empty());

    let action = place_order(&mut book, &mut order, Reply::Account(key(2)));
    assert_eq!(
        action,
        Action::Settle {
            base: Transfer {
                asset: Asset::Base,
                from: Holder::Custody,
                to: Holder::Party(key(1)),
                amount: 4
            },
            quote: Transfer {
                asset: Asset::Quote,
                from: Holder::Custody,
                to: Holder::Party(key(2)),
                amount: 360
            },
            event: TradeEvent {
                taker: key(1),
                maker: key(2),
                base_mint: key(200),
                quote_mint: key(201),
                quantity: 4,
                price: 90
            },
        }
    );
    assert_eq!(order.stage, Stage::Settling { maker, quantity: 4 });
    assert_eq!(order.remaining, 10);

    let action = place_order(&mut book, &mut order, Reply::Transferred);
    assert_eq!(
        action,
        Action::Done(PlaceOutcome { filled: 4, resting: 6, order_id: Some(2) })
    );
    assert_eq!(order.stage, Stage::Done { order_id: Some(2) });
    assert_eq!(order.remaining, 6);
    assert_eq!(
        book.bids,
        vec![Order { owner: key(1), price: 100, quantity: 6, order_id: 2 }]
    );
    assert!(book.asks.is_empty());

    let again = place_order(&mut book, &mut order, Reply::TransferFailed);
    assert_eq!(again, action);
    assert_eq!(book.bids.len(), 1);
}

#[test]
fn sell_settles_base_to_the_maker_and_quote_to_the_taker() {
    let mut book = fresh_book();
    let mut host = Host::new();
    host.place(&mut book, key(2), Side::Buy, 110, 8).unwrap();
    let (mut order, _) = PlaceOrder::new(key(1), Side::Sell, 100, 3).unwrap();
    assert_eq!(
        place_order(&mut book, &mut order, Reply::Transferred),
        Action::Resolve { owner: key(2) }
    );
    let action = place_order(&mut book, &mut order, Reply::Account(key(2)));
    assert_eq!(
        action,
        Action::Settle {
            base: Transfer {
                asset: Asset::Base,
                from: Holder::Custody,
                to: Holder::Party(key(2)),
                amount: 3
            },
            quote: Transfer {
                asset: Asset::Quote,
                from: Holder::Custody,
                to: Holder::Party(key(1)),
                amount: 330
            },
            event: TradeEvent {
                taker: key(1),
                maker: key(2),
                base_mint: key(200),
                quote_mint: key(201),
                quantity: 3,
                price: 110
            },
        }
    );
    assert_eq!(
        place_order(&mut book, &mut order, Reply::Transferred),
        Action::Done(PlaceOutcome { filled: 3, resting: 0, order_id: None })
    );
    assert_eq!(
        book.bids,
        vec![Order { owner: key(2), price: 110, quantity: 5, order_id: 1 }]
    );
    assert!(book.asks.is_empty());
}

#[test]
fn wrong_or_missing_maker_account_aborts_and_the_maker_is_lost() {
    for reply in [
        Reply::Account(key(3)),
        Reply::AccountMissing,
        Reply::Transferred,
        Reply::TransferFailed,
    ] {
        let mut book = fresh_book();
        let mut host = Host::new();
        host.place(&mut book, key(2), Side::Sell, 100, 5).unwrap();
        host.place(&mut book, key(4), Side::Sell, 105, 5).unwrap();
        let (mut order, _) = PlaceOrder::new(key(1), Side::Buy, 100, 5).unwrap();
        place_order(&mut book, &mut order, Reply::Transferred);
        let action = place_order(&mut book, &mut order, reply);
        assert_eq!(action, Action::Abort(DexError::MakerAccountMismatch));
        assert_eq!(
            order.stage,
            Stage::Aborted { error: DexError::MakerAccountMismatch }
        );
        assert_eq!(
            book.asks,
            vec![Order { owner: key(4), price: 105, quantity: 5, order_id: 2 }]
        );
        assert!(book.bids.is_empty());
        assert!(book.is_valid());
    }
}

#[test]
fn refused_settlement_aborts() {
    for reply in [Reply::TransferFailed, Reply::AccountMissing, Reply::Account(key(2))] {
        let mut book = fresh_book();
        let mut host = Host::new();
        host.place(&mut book, key(2), Side::Sell, 100, 5).unwrap();
        let (mut order, _) = PlaceOrder::new(key(1), Side::Buy, 100, 5).unwrap();
        place_order(&mut book, &mut order, Reply::Transferred);
        place_order(&mut book, &mut order, Reply::Account(key(2)));
        let action = place_order(&mut book, &mut order, reply);
        assert_eq!(action, Action::Abort(DexError::TransferError));
        assert_eq!(order.remaining, 5);
        assert!(book.asks.is_empty());
        assert!(book.bids.is_empty());
    }
}

#[test]
fn overflowing_trade_value_is_a_calculation_error() {
    let mut book = fresh_book();
    book.order_id_counter = 1;
    book.bids.push(Order { owner: key(2), price: u64::MAX, quantity: 2, order_id: 1 });
    assert!(book.is_valid());
    let (mut order, _) = PlaceOrder::new(key(1), Side::Sell, 1, 2).unwrap();
    assert_eq!(
        place_order(&mut book, &mut order, Reply::Transferred),
        Action::Resolve { owner: key(2) }
    );
    assert_eq!(
        place_order(&mut book, &mut order, Reply::Account(key(2))),
        Action::Abort(DexError::CalculationError)
    );
    assert!(book.bids.is_empty());
    // One unit at that price still fits.
    let mut book = fresh_book();
    book.order_id_counter = 1;
    book.bids.push(Order { owner: key(2), price: u64::MAX, quantity: 2, order_id: 1 });
    let mut host = Host::new();
    let outcome = host.place(&mut book, key(1), Side::Sell, 1, 1).unwrap();
    assert_eq!(outcome, PlaceOutcome { filled: 1, resting: 0, order_id: None });
    assert_eq!(host.events[0].price, u64::MAX);
    assert_eq!(host.transfers[2].amount, u64::MAX);
    assert_eq!(book.bids[0].quantity, 1);
}

#[test]
fn price_below_the_best_ask_does_not_trade() {
    let mut book = fresh_book();
    let mut host = Host::new();
    host.place(&mut book, key(2), Side::Sell, 101, 5).unwrap();
    let outcome = host.place(&mut book, key(1), Side::Buy, 100, 5).unwrap();
    assert_eq!(outcome, PlaceOutcome { filled: 0, resting: 5, order_id: Some(2) });
    assert!(host.events.is_empty());
    assert_eq!(book.best_bid(), Some(100));
    assert_eq!(book.best_ask(), Some(101));
    let outcome = host.place(&mut book, key(3), Side::Sell, 101, 5).unwrap();
    assert_eq!(outcome, PlaceOutcome { filled: 0, resting: 5, order_id: Some(3) });
    assert!(host.events.is_empty());
    let ids: Vec<u64> = book.asks.iter().map(|o| o.order_id).collect();
    assert_eq!(ids, vec![1, 3]);
}

#[test]
fn makers_are_matched_best_price_first_then_earliest() {
    let mut book = fresh_book();
    let mut host = Host::new();
    host.place(&mut book, key(2), Side::Sell, 102, 1).unwrap();
    host.place(&mut book, key(3), Side::Sell, 100, 1).unwrap();
    host.place(&mut book, key(4), Side::Sell, 101, 1).unwrap();
    host.place(&mut book, key(5), Side::Sell, 100, 1).unwrap();
    host.place(&mut book, key(6), Side::Sell, 103, 1).unwrap();
    let outcome = host.place(&mut book, key(1), Side::Buy, 102, 10).unwrap();
    assert_eq!(outcome, PlaceOutcome { filled: 4, resting: 6, order_id: Some(6) });
    let makers: Vec<Pubkey> = host.events.iter().map(|e| e.maker).collect();
    assert_eq!(makers, vec![key(3), key(5), key(4), key(2)]);
    let prices: Vec<u64> = host.events.iter().map(|e| e.price).collect();
    assert_eq!(prices, vec![100, 100, 101, 102]);
    assert_eq!(
        book.asks,
        vec![Order { owner: key(6), price: 103, quantity: 1, order_id: 5 }]
    );
    assert_eq!(
        book.bids,
        vec![Order { owner: key(1), price: 102, quantity: 6, order_id: 6 }]
    );
    assert!(book.is_valid());
}

#[test]
fn bids_are_matched_highest_price_first_then_earliest() {
    let mut book = fresh_book();
    let mut host = Host::new();
    host.place(&mut book, key(2), Side::Buy, 98, 2).unwrap();
    host.place(&mut book, key(3), Side::Buy, 100, 2).unwrap();
    host.place(&mut book, key(4), Side::Buy, 100, 2).unwrap();
    host.place(&mut book, key(5), Side::Buy, 99, 2).unwrap();
    let outcome = host.place(&mut book, key(1), Side::Sell, 99, 5).unwrap();
    assert_eq!(outcome, PlaceOutcome { filled: 5, resting: 0, order_id: None });
    let makers: Vec<Pubkey> = host.events.iter().map(|e| e.maker).collect();
    assert_eq!(makers, vec![key(3), key(4), key(5)]);
    let fills: Vec<(u64, u64)> = host.events.iter().map(|e| (e.quantity, e.price)).collect();
    assert_eq!(fills, vec![(2, 100), (2, 100), (1, 99)]);
    assert_eq!(
        book.bids,
        vec![
            Order { owner: key(5), price: 99, quantity: 1, order_id: 4 },
            Order { owner: key(2), price: 98, quantity: 2, order_id: 1 },
        ]
    );
}

#[test]
fn a_partly_filled_maker_keeps_its_identifier_and_its_place() {
    let mut book = fresh_book();
    let mut host = Host::new();
    host.place(&mut book, key(2), Side::Sell, 100, 10).unwrap();
    host.place(&mut book, key(3), Side::Sell, 100, 10).unwrap();
    host.place(&mut book, key(1), Side::Buy, 100, 4).unwrap();
    assert_eq!(
        book.asks,
        vec![
            Order { owner: key(2), price: 100, quantity: 6, order_id: 1 },
            Order { owner: key(3), price: 100, quantity: 10, order_id: 2 },
        ]
    );
    host.events.clear();
    host.place(&mut book, key(1), Side::Buy, 100, 8).unwrap();
    let fills: Vec<(Pubkey, u64)> = host.events.iter().map(|e| (e.maker, e.quantity)).collect();
    assert_eq!(fills, vec![(key(2), 6), (key(3), 2)]);
    assert_eq!(
        book.asks,
        vec![Order { owner: key(3), price: 100, quantity: 8, order_id: 2 }]
    );
    assert_eq!(book.order_id_counter, 2);
}

#[test]
fn the_taker_trades_at_the_resting_price() {
    let mut book = fresh_book();
    let mut host = Host::new();
    host.place(&mut book, key(2), Side::Sell, 90, 5).unwrap();
    host.transfers.clear();
    host.place(&mut book, key(1), Side::Buy, 100, 5).unwrap();
    assert_eq!(host.transfers[0].amount, 500);
    assert_eq!(host.transfers[1].amount, 5);
    assert_eq!(host.transfers[2].amount, 450);
    assert_eq!(host.events[0].price, 90);
}

#[test]
fn an_exact_fill_leaves_nothing_resting() {
    let mut book = fresh_book();
    let mut host = Host::new();
    host.place(&mut book, key(2), Side::Sell, 100, 5).unwrap();
    let outcome = host.place(&mut book, key(1), Side::Buy, 100, 5).unwrap();
    assert_eq!(outcome, PlaceOutcome { filled: 5, resting: 0, order_id: None });
    assert!(book.bids.is_empty());
    assert!(book.asks.is_empty());
    assert_eq!(book.order_id_counter, 1);
}

#[test]
fn quantity_is_conserved_across_placements_and_cancellations() {
    let mut book = fresh_book();
    let mut host = Host::new();
    let mut submitted_sell = 0u64;
    let mut submitted_buy = 0u64;
    let mut filled = 0u64;
    for (tag, price, quantity) in [(2u8, 105u64, 7u64), (3, 103, 4), (4, 104, 9)] {
        submitted_sell += quantity;
        filled += host.place(&mut book, key(tag), Side::Sell, price, quantity).unwrap().filled;
    }
    for (tag, price, quantity) in [(5u8, 104u64, 6u64), (6, 100, 3), (7, 105, 20)] {
        submitted_buy += quantity;
        filled += host.place(&mut book, key(tag), Side::Buy, price, quantity).unwrap().filled;
    }
    let traded: u64 = host.events.iter().map(|e| e.quantity).sum();
    assert_eq!(traded, 20);
    assert_eq!(filled, 20);
    assert_eq!(open(&book.asks) + traded, submitted_sell);
    assert_eq!(open(&book.bids) + traded, submitted_buy);
    let resting_before = open(&book.bids);
    let refund = cancel_order(&mut book, &CancelOrder { owner: key(6) }, 4).unwrap();
    assert_eq!(refund.amount, 300);
    assert_eq!(open(&book.bids) + 3, resting_before);
    assert_eq!(open(&book.bids) + traded + 3, submitted_buy);
    assert!(book.is_valid());
}

#[test]
fn the_book_is_never_crossed_after_a_call() {
    let mut book = fresh_book();
    let mut host = Host::new();
    let orders = [
        (Side::Buy, 100u64, 5u64),
        (Side::Sell, 101, 5),
        (Side::Sell, 99, 7),
        (Side::Buy, 103, 1),
        (Side::Buy, 101, 9),
        (Side::Sell, 100, 2),
        (Side::Sell, 100, 20),
    ];
    for (i, (side, price, quantity)) in orders.iter().enumerate() {
        host.place(&mut book, key(i as u8), *side, *price, *quantity).unwrap();
        assert!(book.is_valid());
        if let (Some(bid), Some(ask)) = (book.best_bid(), book.best_ask()) {
            assert!(bid < ask);
        }
        assert!(book.bids.iter().all(|o| o.quantity > 0));
        assert!(book.asks.iter().all(|o| o.quantity > 0));
    }
}

#[test]
fn cancel_of_an_unknown_identifier_is_not_found() {
    let mut book = fresh_book();
    let mut host = Host::new();
    assert_eq!(
        cancel_order(&mut book, &CancelOrder { owner: key(1) }, 1),
        Err(DexError::OrderNotFound)
    );
    host.place(&mut book, key(1), Side::Buy, 100, 10).unwrap();
    host.place(&mut book, key(2), Side::Sell, 110, 10).unwrap();
    let before = book.clone();
    for id in [0u64, 3, 99, u64::MAX] {
        assert_eq!(
            cancel_order(&mut book, &CancelOrder { owner: key(1) }, id),
            Err(DexError::OrderNotFound)
        );
    }
    assert_eq!(book.bids, before.bids);
    assert_eq!(book.asks, before.asks);
    assert_eq!(book.order_id_counter, before.order_id_counter);
}

#[test]
fn cancel_by_another_party_is_not_owned() {
    let mut book = fresh_book();
    let mut host = Host::new();
    host.place(&mut book, key(1), Side::Buy, 100, 10).unwrap();
    host.place(&mut book, key(2), Side::Sell, 110, 10).unwrap();
    let before = book.clone();
    assert_eq!(
        cancel_order(&mut book, &CancelOrder { owner: key(2) }, 1),
        Err(DexError::OrderNotOwned)
    );
    assert_eq!(
        cancel_order(&mut book, &CancelOrder { owner: key(1) }, 2),
        Err(DexError::OrderNotOwned)
    );
    assert_eq!(book.bids, before.bids);
    assert_eq!(book.asks, before.asks);
}

#[test]
fn cancel_of_an_ask_refunds_its_quantity_in_base() {
    let mut book = fresh_book();
    let mut host = Host::new();
    host.place(&mut book, key(1), Side::Buy, 100, 10).unwrap();
    host.place(&mut book, key(2), Side::Sell, 110, 7).unwrap();
    assert_eq!(
        cancel_order(&mut book, &CancelOrder { owner: key(2) }, 2),
        Ok(Transfer {
            asset: Asset::Base,
            from: Holder::Custody,
            to: Holder::Party(key(2)),
            amount: 7
        })
    );
    assert!(book.asks.is_empty());
    assert_eq!(book.bids.len(), 1);
}

#[test]
fn cancel_of_a_part_filled_bid_refunds_what_is_left() {
    let mut book = fresh_book();
    let mut host = Host::new();
    host.place(&mut book, key(1), Side::Buy, 100, 10).unwrap();
    host.place(&mut book, key(2), Side::Sell, 100, 4).unwrap();
    assert_eq!(
        cancel_order(&mut book, &CancelOrder { owner: key(1) }, 1),
        Ok(Transfer {
            asset: Asset::Quote,
            from: Holder::Custody,
            to: Holder::Party(key(1)),
            amount: 600
        })
    );
    assert!(book.bids.is_empty());
}

#[test]
fn cancel_of_a_bid_whose_value_overflows_is_a_calculation_error() {
    let mut book = fresh_book();
    book.order_id_counter = 1;
    book.bids.push(Order { owner: key(1), price: u64::MAX, quantity: 2, order_id: 1 });
    assert_eq!(
        cancel_order(&mut book, &CancelOrder { owner: key(1) }, 1),
        Err(DexError::CalculationError)
    );
    assert_eq!(book.bids.len(), 1);
    assert_eq!(
        cancel_order(&mut book, &CancelOrder { owner: key(9) }, 1),
        Err(DexError::OrderNotOwned)
    );
}

#[test]
fn identifiers_are_not_reused_after_a_cancellation() {
    let mut book = fresh_book();
    let mut host = Host::new();
    host.place(&mut book, key(1), Side::Buy, 100, 10).unwrap();
    cancel_order(&mut book, &CancelOrder { owner: key(1) }, 1).unwrap();
    let outcome = host.place(&mut book, key(1), Side::Buy, 100, 10).unwrap();
    assert_eq!(outcome.order_id, Some(2));
    assert_eq!(book.bids[0].order_id, 2);
    // A placement that is filled in full takes no identifier.
    host.place(&mut book, key(2), Side::Sell, 100, 10).unwrap();
    assert_eq!(book.order_id_counter, 2);
    let outcome = host.place(&mut book, key(2), Side::Sell, 100, 1).unwrap();
    assert_eq!(outcome.order_id, Some(3));
}

/// What custody holds of `asset` after the ledger carried out `transfers`.
fn custody(transfers: &[Transfer], asset: Asset) -> u64 {
    let mut balance = 0u64;
    for transfer in transfers.iter().filter(|t| t.asset == asset) {
        if transfer.to == Holder::Custody {
            balance += transfer.amount;
        }
        if transfer.from == Holder::Custody {
            balance -= transfer.amount;
        }
    }
    balance
}

/// The full price of all the bids.
fn value(orders: &[Order]) -> u64 {
    orders.iter().map(|o| o.price * o.quantity).sum()
}

#[test]
fn custody_holds_what_the_book_owes_and_the_buyers_surplus() {
    let mut book = fresh_book();
    let mut host = Host::new();

    host.place(&mut book, key(2), Side::Sell, 90, 5).unwrap();
    assert_eq!(custody(&host.transfers, Asset::Base), 5);
    assert_eq!(custody(&host.transfers, Asset::Quote), 0);
    assert_eq!(open(&book.asks), 5);

    // The buyer locks 500 and pays 450: 50 stay behind.
    host.place(&mut book, key(1), Side::Buy, 100, 5).unwrap();
    assert_eq!(custody(&host.transfers, Asset::Base), 0);
    assert_eq!(custody(&host.transfers, Asset::Quote), 50);
    assert!(book.bids.is_empty() && book.asks.is_empty());

    host.place(&mut book, key(3), Side::Buy, 80, 4).unwrap();
    assert_eq!(custody(&host.transfers, Asset::Quote), 50 + value(&book.bids));
    assert_eq!(value(&book.bids), 320);

    // The seller is paid the bid's price out of what the bidder locked.
    host.place(&mut book, key(4), Side::Sell, 70, 6).unwrap();
    assert_eq!(custody(&host.transfers, Asset::Base), open(&book.asks));
    assert_eq!(open(&book.asks), 2);
    assert_eq!(custody(&host.transfers, Asset::Quote), 50);
    assert!(book.bids.is_empty());

    let refund = cancel_order(&mut book, &CancelOrder { owner: key(4) }, 3).unwrap();
    host.transfers.push(refund);
    assert_eq!(custody(&host.transfers, Asset::Base), 0);
    assert_eq!(custody(&host.transfers, Asset::Quote), 50);
}

#[test]
fn a_taker_gets_all_that_is_offered_within_its_limit() {
    let mut book = fresh_book();
    let mut host = Host::new();
    host.place(&mut book, key(2), Side::Sell, 100, 3).unwrap();
    host.place(&mut book, key(3), Side::Sell, 101, 4).unwrap();
    host.place(&mut book, key(4), Side::Sell, 102, 5).unwrap();
    let outcome = host.place(&mut book, key(1), Side::Buy, 101, 20).unwrap();
    assert_eq!(outcome, PlaceOutcome { filled: 7, resting: 13, order_id: Some(4) });
    assert_eq!(
        book.asks,
        vec![Order { owner: key(4), price: 102, quantity: 5, order_id: 3 }]
    );
    assert_eq!(
        book.bids,
        vec![Order { owner: key(1), price: 101, quantity: 13, order_id: 4 }]
    );
}
