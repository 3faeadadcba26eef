use svm_clob::engine::{placement_rejection, MatchingEngine, PlaceOrderOutcome};
use svm_clob::types::{
    AccountId, ClobError, Order, OrderBook, OrderSide, OrderStatus, OrderType, SelfTradeBehavior, TimeInForce,
};

fn acct(n: u8) -> AccountId {
    [n; 32]
}

fn market() -> OrderBook {
    OrderBook {
        authority: acct(0),
        base_mint: acct(0),
        quote_mint: acct(0),
        tick_size: 1,
        min_order_size: 1,
        sequence_number: 0,
        total_orders: 0,
        best_bid: 0,
        best_ask: u64::MAX,
        total_volume: 0,
        is_initialized: true,
        is_paused: false,
    }
}

fn engine() -> MatchingEngine {
    MatchingEngine::new(market())
}

fn order(owner: u8, side: OrderSide, price: u64, quantity: u64, timestamp: i64) -> Order {
    Order {
        order_id: 0,
        owner: acct(owner),
        price,
        quantity,
        remaining_quantity: quantity,
        timestamp,
        client_order_id: timestamp as u64,
        expiry_timestamp: 0,
        side,
        order_type: OrderType::Limit,
        status: OrderStatus::Open,
        self_trade_behavior: SelfTradeBehavior::DecrementAndCancel,
        time_in_force: TimeInForce::GoodTillCancelled,
    }
}

fn place(e: &mut MatchingEngine, o: Order) -> PlaceOrderOutcome {
    e.place_order(o, 1_000).unwrap()
}

#[test]
fn simple_cross() {
    let mut e = engine();
    let a = place(&mut e, order(1, OrderSide::Ask, 100, 5, 1));
    let b = place(&mut e, order(2, OrderSide::Bid, 101, 3, 2));
    assert_eq!(b.trades.len(), 1);
    let t = b.trades[0];
    assert_eq!(t.maker_order_id, a.order.order_id);
    assert_eq!(t.taker_order_id, b.order.order_id);
    assert_eq!(t.maker_owner, acct(1));
    assert_eq!(t.taker_owner, acct(2));
    assert_eq!(t.price, 100);
    assert_eq!(t.quantity, 3);
    assert_eq!(t.maker_side, OrderSide::Ask);
    assert_eq!(b.order.status, OrderStatus::Filled);
    assert_eq!(b.order.remaining_quantity, 0);
    let rest = e.get_order(a.order.order_id).unwrap();
    assert_eq!(rest.remaining_quantity, 2);
    assert_eq!(rest.status, OrderStatus::PartiallyFilled);
    assert_eq!(b.updated.unwrap().remaining_quantity, 2);
    assert_eq!(e.order_book().get_best_ask(), Some(100));
    assert_eq!(e.order_book().get_best_bid(), None);
}

#[test]
fn price_time_priority() {
    let mut e = engine();
    let a = place(&mut e, order(1, OrderSide::Ask, 100, 2, 1));
    let c = place(&mut e, order(3, OrderSide::Ask, 100, 2, 2));
    let b = place(&mut e, order(2, OrderSide::Bid, 100, 3, 3));
    assert_eq!(b.trades.len(), 2);
    assert_eq!(b.trades[0].maker_order_id, a.order.order_id);
    assert_eq!(b.trades[0].quantity, 2);
    assert_eq!(b.trades[1].maker_order_id, c.order.order_id);
    assert_eq!(b.trades[1].quantity, 1);
    assert_eq!(e.get_order(c.order.order_id).unwrap().remaining_quantity, 1);
    assert!(e.get_order(a.order.order_id).is_none());
    assert_eq!(b.removed.len(), 1);
    assert_eq!(b.removed[0].status, OrderStatus::Filled);
}

#[test]
fn better_price_trades_first() {
    let mut e = engine();
    let worse = place(&mut e, order(1, OrderSide::Ask, 102, 1, 1));
    let better = place(&mut e, order(3, OrderSide::Ask, 101, 1, 2));
    let b = place(&mut e, order(2, OrderSide::Bid, 105, 2, 3));
    assert_eq!(b.trades.len(), 2);
    assert_eq!(b.trades[0].maker_order_id, better.order.order_id);
    assert_eq!(b.trades[0].price, 101);
    assert_eq!(b.trades[1].maker_order_id, worse.order.order_id);
    assert_eq!(b.trades[1].price, 102);
}

#[test]
fn post_only_rejection() {
    let mut e = engine();
    place(&mut e, order(1, OrderSide::Ask, 100, 5, 1));
    let before = e.get_order_book_snapshot(0).unwrap();
    let mut p = order(2, OrderSide::Bid, 100, 1, 2);
    p.order_type = OrderType::PostOnly;
    let r = e.place_order(p, 1_000);
    assert!(matches!(r, Err(ClobError::PostOnlyOrderWouldMatch)));
    let after = e.get_order_book_snapshot(0).unwrap();
    assert_eq!(before.bids, after.bids);
    assert_eq!(before.asks, after.asks);
    assert_eq!(before.sequence_number, after.sequence_number);
}

#[test]
fn post_only_rests_when_not_crossing() {
    let mut e = engine();
    place(&mut e, order(1, OrderSide::Ask, 100, 5, 1));
    let mut p = order(2, OrderSide::Bid, 99, 1, 2);
    p.order_type = OrderType::PostOnly;
    let out = place(&mut e, p);
    assert!(out.trades.is_empty());
    assert_eq!(out.order.status, OrderStatus::Open);
    assert_eq!(e.order_book().get_best_bid(), Some(99));
}

#[test]
fn fok_atomicity() {
    let mut e = engine();
    let a = place(&mut e, order(1, OrderSide::Ask, 100, 2, 1));
    let mut f = order(2, OrderSide::Bid, 100, 5, 2);
    f.time_in_force = TimeInForce::FillOrKill;
    let b = place(&mut e, f);
    assert_eq!(b.order.status, OrderStatus::Cancelled);
    assert!(b.trades.is_empty());
    let maker = e.get_order(a.order.order_id).unwrap();
    assert_eq!(maker.remaining_quantity, 2);
    assert_eq!(maker.status, OrderStatus::Open);
}

#[test]
fn fok_fills_when_depth_suffices() {
    let mut e = engine();
    place(&mut e, order(1, OrderSide::Ask, 100, 2, 1));
    place(&mut e, order(3, OrderSide::Ask, 101, 3, 2));
    let mut f = order(2, OrderSide::Bid, 101, 5, 3);
    f.time_in_force = TimeInForce::FillOrKill;
    let b = place(&mut e, f);
    assert_eq!(b.order.status, OrderStatus::Filled);
    assert_eq!(b.trades.len(), 2);
    assert_eq!(e.order_book().get_best_ask(), None);
}

#[test]
fn ioc_partial() {
    let mut e = engine();
    let a = place(&mut e, order(1, OrderSide::Ask, 100, 2, 1));
    let mut i = order(2, OrderSide::Bid, 100, 5, 2);
    i.time_in_force = TimeInForce::ImmediateOrCancel;
    let b = place(&mut e, i);
    assert_eq!(b.trades.len(), 1);
    assert_eq!(b.trades[0].quantity, 2);
    assert_eq!(b.order.status, OrderStatus::Cancelled);
    assert_eq!(b.order.remaining_quantity, 3);
    assert_eq!(b.removed.len(), 1);
    assert_eq!(b.removed[0].order_id, a.order.order_id);
    assert_eq!(b.removed[0].status, OrderStatus::Filled);
    assert!(e.get_order(a.order.order_id).is_none());
    assert_eq!(e.order_book().get_best_bid(), None);
}

#[test]
fn self_trade_decrement_and_cancel() {
    let mut e = engine();
    let m = place(&mut e, order(7, OrderSide::Ask, 100, 5, 1));
    let t = place(&mut e, order(7, OrderSide::Bid, 101, 3, 2));
    assert!(t.trades.is_empty());
    assert_eq!(t.order.status, OrderStatus::Cancelled);
    let maker = e.get_order(m.order.order_id).unwrap();
    assert_eq!(maker.remaining_quantity, 5);
}

#[test]
fn self_trade_decrement_equal_cancels_both() {
    let mut e = engine();
    let m = place(&mut e, order(7, OrderSide::Ask, 100, 3, 1));
    let t = place(&mut e, order(7, OrderSide::Bid, 100, 3, 2));
    assert!(t.trades.is_empty());
    assert_eq!(t.order.status, OrderStatus::Cancelled);
    assert!(e.get_order(m.order.order_id).is_none());
    assert_eq!(t.removed[0].status, OrderStatus::Cancelled);
}

#[test]
fn self_trade_decrement_larger_taker_continues() {
    let mut e = engine();
    let own = place(&mut e, order(7, OrderSide::Ask, 100, 2, 1));
    let other = place(&mut e, order(8, OrderSide::Ask, 100, 4, 2));
    let t = place(&mut e, order(7, OrderSide::Bid, 100, 3, 3));
    assert!(e.get_order(own.order.order_id).is_none());
    assert_eq!(t.trades.len(), 1);
    assert_eq!(t.trades[0].maker_order_id, other.order.order_id);
    assert_eq!(t.trades[0].quantity, 3);
    assert_eq!(t.order.status, OrderStatus::Filled);
}

#[test]
fn self_trade_cancel_provide() {
    let mut e = engine();
    let own = place(&mut e, order(7, OrderSide::Ask, 100, 5, 1));
    let mut t = order(7, OrderSide::Bid, 100, 3, 2);
    t.self_trade_behavior = SelfTradeBehavior::CancelProvide;
    let out = place(&mut e, t);
    assert!(out.trades.is_empty());
    assert!(e.get_order(own.order.order_id).is_none());
    assert_eq!(out.order.status, OrderStatus::Open);
    assert_eq!(e.order_book().get_best_bid(), Some(100));
}

#[test]
fn self_trade_cancel_take() {
    let mut e = engine();
    let own = place(&mut e, order(7, OrderSide::Ask, 100, 1, 1));
    let mut t = order(7, OrderSide::Bid, 100, 3, 2);
    t.self_trade_behavior = SelfTradeBehavior::CancelTake;
    let out = place(&mut e, t);
    assert_eq!(out.order.status, OrderStatus::Cancelled);
    assert_eq!(e.get_order(own.order.order_id).unwrap().remaining_quantity, 1);
}

#[test]
fn self_trade_cancel_both() {
    let mut e = engine();
    let own = place(&mut e, order(7, OrderSide::Ask, 100, 1, 1));
    let mut t = order(7, OrderSide::Bid, 100, 3, 2);
    t.self_trade_behavior = SelfTradeBehavior::CancelBoth;
    let out = place(&mut e, t);
    assert_eq!(out.order.status, OrderStatus::Cancelled);
    assert!(e.get_order(own.order.order_id).is_none());
    assert_eq!(e.order_book().get_best_bid(), None);
}

#[test]
fn market_order_sweeps_and_cancels_rest() {
    let mut e = engine();
    place(&mut e, order(1, OrderSide::Bid, 90, 2, 1));
    place(&mut e, order(3, OrderSide::Bid, 95, 1, 2));
    let mut m = order(2, OrderSide::Ask, 0, 5, 3);
    m.order_type = OrderType::Market;
    let out = place(&mut e, m);
    assert_eq!(out.trades.len(), 2);
    assert_eq!(out.trades[0].price, 95);
    assert_eq!(out.trades[1].price, 90);
    assert_eq!(out.order.status, OrderStatus::Cancelled);
    assert_eq!(out.order.remaining_quantity, 2);
    assert_eq!(e.order_book().get_best_bid(), None);
    assert_eq!(e.order_book().get_best_ask(), None);
}

#[test]
fn gtc_remainder_rests_partially_filled() {
    let mut e = engine();
    place(&mut e, order(1, OrderSide::Ask, 100, 2, 1));
    let out = place(&mut e, order(2, OrderSide::Bid, 100, 5, 2));
    assert_eq!(out.order.status, OrderStatus::PartiallyFilled);
    assert_eq!(out.order.remaining_quantity, 3);
    let resting = e.get_order(out.order.order_id).unwrap();
    assert_eq!(resting.remaining_quantity, 3);
    assert_eq!(e.order_book().get_best_bid(), Some(100));
    assert_eq!(e.order_book().get_best_ask(), None);
}

#[test]
fn conservation_of_quantity() {
    let mut e = engine();
    place(&mut e, order(1, OrderSide::Ask, 100, 2, 1));
    place(&mut e, order(3, OrderSide::Ask, 101, 2, 2));
    let out = place(&mut e, order(2, OrderSide::Bid, 101, 7, 3));
    let traded: u64 = out.trades.iter().map(|t| t.quantity).sum();
    assert_eq!(out.order.quantity, out.order.remaining_quantity + traded);
    for t in &out.trades {
        assert!(t.quantity > 0);
        assert_ne!(t.maker_owner, t.taker_owner);
    }
}

#[test]
fn sequence_numbers_increase() {
    let mut e = engine();
    let mut last = e.order_book().sequence_number();
    let mut ids = Vec::new();
    for (i, side) in [OrderSide::Ask, OrderSide::Bid, OrderSide::Ask, OrderSide::Bid].iter().enumerate() {
        let out = place(&mut e, order(i as u8 + 1, *side, 100, 1, i as i64 + 1));
        let now = e.order_book().sequence_number();
        assert!(now > last);
        last = now;
        assert!(!ids.contains(&out.order.order_id));
        ids.push(out.order.order_id);
    }
    let first = place(&mut e, order(9, OrderSide::Bid, 50, 1, 10));
    let before = e.order_book().sequence_number();
    e.cancel_order(first.order.order_id, &acct(9)).unwrap();
    assert!(e.order_book().sequence_number() > before);
}

#[test]
fn best_bid_stays_below_best_ask() {
    let mut e = engine();
    place(&mut e, order(1, OrderSide::Ask, 105, 3, 1));
    place(&mut e, order(2, OrderSide::Bid, 100, 3, 2));
    place(&mut e, order(3, OrderSide::Bid, 106, 1, 3));
    place(&mut e, order(4, OrderSide::Ask, 99, 5, 4));
    let bid = e.order_book().get_best_bid();
    let ask = e.order_book().get_best_ask();
    if let (Some(b), Some(a)) = (bid, ask) {
        assert!(b < a);
    }
}

#[test]
fn cancel_twice_is_not_found() {
    let mut e = engine();
    let a = place(&mut e, order(1, OrderSide::Ask, 100, 5, 1));
    let c = e.cancel_order(a.order.order_id, &acct(1)).unwrap();
    assert_eq!(c.status, OrderStatus::Cancelled);
    assert_eq!(c.remaining_quantity, 5);
    let seq = e.order_book().sequence_number();
    let again = e.cancel_order(a.order.order_id, &acct(1));
    assert!(matches!(again, Err(ClobError::OrderNotFound)));
    assert_eq!(e.order_book().sequence_number(), seq);
}

#[test]
fn cancel_by_other_owner_is_unauthorized() {
    let mut e = engine();
    let a = place(&mut e, order(1, OrderSide::Ask, 100, 5, 1));
    let r = e.cancel_order(a.order.order_id, &acct(2));
    assert!(matches!(r, Err(ClobError::Unauthorized)));
    assert!(e.get_order(a.order.order_id).is_some());
}

#[test]
fn duplicate_client_order_id_rejected() {
    let mut e = engine();
    let mut first = order(1, OrderSide::Bid, 90, 1, 1);
    first.client_order_id = 42;
    place(&mut e, first);
    let mut second = order(1, OrderSide::Bid, 91, 1, 2);
    second.client_order_id = 42;
    let r = e.place_order(second, 1_000);
    assert!(matches!(r, Err(ClobError::DuplicateOrderId)));
    let mut other_owner = order(2, OrderSide::Bid, 91, 1, 3);
    other_owner.client_order_id = 42;
    assert!(e.place_order(other_owner, 1_000).is_ok());
}

#[test]
fn validation_errors() {
    let mut e = engine();
    let mut cfg = market();
    cfg.tick_size = 5;
    cfg.min_order_size = 10;
    let mut e5 = MatchingEngine::new(cfg);
    assert!(matches!(
        e5.place_order(order(1, OrderSide::Bid, 100, 5, 1), 0),
        Err(ClobError::OrderSizeBelowMinimum)
    ));
    assert!(matches!(
        e5.place_order(order(1, OrderSide::Bid, 102, 10, 1), 0),
        Err(ClobError::PriceNotAlignedToTickSize)
    ));
    assert!(matches!(e5.place_order(order(1, OrderSide::Bid, 0, 10, 1), 0), Err(ClobError::InvalidPrice(_))));
    let mut gtt = order(1, OrderSide::Bid, 100, 1, 1);
    gtt.time_in_force = TimeInForce::GoodTillTime;
    gtt.expiry_timestamp = 500;
    assert!(matches!(e.place_order(gtt, 500), Err(ClobError::OrderExpired)));
    let ok = e.place_order(gtt, 499).unwrap();
    assert_eq!(ok.order.expiry_timestamp, 500);
    e.set_paused(true);
    assert!(matches!(
        e.place_order(order(1, OrderSide::Bid, 100, 1, 2), 0),
        Err(ClobError::OrderbookPaused)
    ));
}

#[test]
fn engine_assigns_order_ids() {
    let mut e = engine();
    let mut o = order(1, OrderSide::Bid, 100, 1, 1);
    o.order_id = 777;
    let out = e.place_order(o, 1_000).unwrap();
    assert_eq!(out.order.order_id, 1);
    let next = e.place_order(order(1, OrderSide::Bid, 99, 1, 2), 1_000).unwrap();
    assert_eq!(next.order.order_id, 3);
}

#[test]
fn modify_smaller_quantity_keeps_priority() {
    let mut e = engine();
    let first = place(&mut e, order(1, OrderSide::Ask, 100, 5, 1));
    let second = place(&mut e, order(2, OrderSide::Ask, 100, 5, 2));
    let m = e.modify_order(first.order.order_id, &acct(1), None, Some(3), 2_000).unwrap();
    assert_eq!(m.quantity, 3);
    assert_eq!(m.remaining_quantity, 3);
    assert_eq!(m.status, OrderStatus::Open);
    let b = place(&mut e, order(3, OrderSide::Bid, 100, 1, 3));
    assert_eq!(b.trades[0].maker_order_id, first.order.order_id);
    assert!(e.get_order(second.order.order_id).is_some());
}

#[test]
fn modify_price_loses_priority() {
    let mut e = engine();
    let first = place(&mut e, order(1, OrderSide::Ask, 101, 5, 1));
    let second = place(&mut e, order(2, OrderSide::Ask, 100, 5, 2));
    let m = e.modify_order(first.order.order_id, &acct(1), Some(100), None, 2_000).unwrap();
    assert_eq!(m.price, 100);
    assert_eq!(m.order_id, first.order.order_id);
    let b = place(&mut e, order(3, OrderSide::Bid, 100, 1, 3));
    assert_eq!(b.trades[0].maker_order_id, second.order.order_id);
}

#[test]
fn modify_keeps_filled_part() {
    let mut e = engine();
    let a = place(&mut e, order(1, OrderSide::Ask, 100, 5, 1));
    place(&mut e, order(2, OrderSide::Bid, 100, 2, 2));
    let m = e.modify_order(a.order.order_id, &acct(1), None, Some(8), 2_000).unwrap();
    assert_eq!(m.quantity, 8);
    assert_eq!(m.remaining_quantity, 6);
    assert_eq!(m.status, OrderStatus::PartiallyFilled);
    let r = e.modify_order(a.order.order_id, &acct(1), None, Some(2), 2_000);
    assert!(matches!(r, Err(ClobError::InvalidQuantity(_))));
}

#[test]
fn modify_errors() {
    let mut e = engine();
    let a = place(&mut e, order(1, OrderSide::Ask, 100, 5, 1));
    place(&mut e, order(2, OrderSide::Bid, 90, 5, 2));
    assert!(matches!(e.modify_order(999, &acct(1), Some(101), None, 2_000), Err(ClobError::OrderNotFound)));
    assert!(matches!(e.modify_order(a.order.order_id, &acct(2), Some(101), None, 2_000), Err(ClobError::Unauthorized)));
    assert!(matches!(e.modify_order(a.order.order_id, &acct(1), Some(0), None, 2_000), Err(ClobError::InvalidPrice(_))));
    assert!(matches!(e.modify_order(a.order.order_id, &acct(1), Some(90), None, 2_000), Err(ClobError::InvalidPrice(_))));
    assert_eq!(e.get_order(a.order.order_id).unwrap().price, 100);
}

#[test]
fn expiry_sweep() {
    let mut e = engine();
    let mut g = order(1, OrderSide::Bid, 90, 2, 1);
    g.time_in_force = TimeInForce::GoodTillTime;
    g.expiry_timestamp = 2_000;
    let gtt = place(&mut e, g);
    let gtc = place(&mut e, order(2, OrderSide::Bid, 95, 2, 2));
    assert!(e.expire_orders(1_999).is_empty());
    let gone = e.expire_orders(2_000);
    assert_eq!(gone.len(), 1);
    assert_eq!(gone[0].order_id, gtt.order.order_id);
    assert_eq!(gone[0].status, OrderStatus::Expired);
    assert!(e.get_order(gtt.order.order_id).is_none());
    assert!(e.get_order(gtc.order.order_id).is_some());
    let seq = e.order_book().sequence_number();
    assert!(e.expire_orders(2_000).is_empty());
    assert_eq!(e.order_book().sequence_number(), seq);
}

#[test]
fn fok_rejection_reported() {
    let mut e = engine();
    place(&mut e, order(1, OrderSide::Ask, 100, 2, 1));
    let mut f = order(2, OrderSide::Bid, 100, 5, 2);
    f.time_in_force = TimeInForce::FillOrKill;
    let killed = place(&mut e, f);
    assert!(matches!(placement_rejection(&killed), Some(ClobError::FOKOrderNotFilled)));
    let filled = place(&mut e, order(3, OrderSide::Bid, 100, 1, 3));
    assert!(placement_rejection(&filled).is_none());
}

#[test]
fn arrival_time_stamps_orders() {
    let mut e = engine();
    let a = e.place_order(order(1, OrderSide::Ask, 100, 1, 0), 50).unwrap();
    assert_eq!(a.order.timestamp, 50);
    let b = e.place_order(order(2, OrderSide::Ask, 100, 1, 0), 40).unwrap();
    assert_eq!(b.order.timestamp, 50);
    let c = e.place_order(order(3, OrderSide::Ask, 101, 1, 0), 40).unwrap();
    assert_eq!(c.order.timestamp, 40);
    let t = e.place_order(order(4, OrderSide::Bid, 100, 1, 0), 60).unwrap();
    assert_eq!(t.trades[0].maker_order_id, a.order.order_id);
    assert_eq!(t.trades[0].timestamp, 60);
}
