use svm_clob::book::OrderBookManager;
use svm_clob::types::{AccountId, ClobError, Order, OrderSide, OrderStatus, OrderType, SelfTradeBehavior, TimeInForce};

fn acct(n: u8) -> AccountId {
    [n; 32]
}

fn resting(id: u64, owner: u8, side: OrderSide, price: u64, quantity: u64) -> Order {
    Order {
        order_id: id,
        owner: acct(owner),
        price,
        quantity,
        remaining_quantity: quantity,
        timestamp: id as i64,
        client_order_id: id,
        expiry_timestamp: 0,
        side,
        order_type: OrderType::Limit,
        status: OrderStatus::Open,
        self_trade_behavior: SelfTradeBehavior::DecrementAndCancel,
        time_in_force: TimeInForce::GoodTillCancelled,
    }
}

fn book() -> OrderBookManager {
    let mut b = OrderBookManager::new(5, 2);
    b.add_order(resting(1, 1, OrderSide::Bid, 100, 3)).unwrap();
    b.add_order(resting(2, 2, OrderSide::Bid, 100, 4)).unwrap();
    b.add_order(resting(3, 1, OrderSide::Bid, 95, 2)).unwrap();
    b.add_order(resting(4, 3, OrderSide::Ask, 110, 5)).unwrap();
    b.add_order(resting(5, 1, OrderSide::Ask, 105, 6)).unwrap();
    b
}

#[test]
fn add_order_errors() {
    let mut b = book();
    let seq = b.sequence_number();
    assert!(matches!(
        b.add_order(resting(9, 1, OrderSide::Bid, 101, 3)),
        Err(ClobError::PriceNotAlignedToTickSize)
    ));
    assert!(matches!(b.add_order(resting(9, 1, OrderSide::Bid, 90, 1)), Err(ClobError::OrderSizeBelowMinimum)));
    let mut empty = resting(9, 1, OrderSide::Bid, 90, 3);
    empty.remaining_quantity = 0;
    assert!(matches!(b.add_order(empty), Err(ClobError::InvalidQuantity(_))));
    assert!(matches!(b.add_order(resting(9, 1, OrderSide::Bid, 105, 3)), Err(ClobError::InvalidPrice(_))));
    assert!(matches!(b.add_order(resting(9, 1, OrderSide::Ask, 0, 3)), Err(ClobError::InvalidPrice(_))));
    assert!(matches!(b.add_order(resting(4, 1, OrderSide::Bid, 90, 3)), Err(ClobError::DuplicateOrderId)));
    assert_eq!(b.sequence_number(), seq);
}

#[test]
fn best_prices_and_sequence() {
    let b = book();
    assert_eq!(b.get_best_bid(), Some(100));
    assert_eq!(b.get_best_ask(), Some(105));
    assert_eq!(b.sequence_number(), 5);
    let empty = OrderBookManager::new(1, 1);
    assert_eq!(empty.get_best_bid(), None);
    assert_eq!(empty.get_best_ask(), None);
}

#[test]
fn price_level_aggregates() {
    let b = book();
    let l = b.get_price_level(OrderSide::Bid, 100).unwrap();
    assert_eq!(l.price, 100);
    assert_eq!(l.quantity, 7);
    assert_eq!(l.order_count, 2);
    assert!(b.get_price_level(OrderSide::Bid, 105).is_none());
    assert!(b.get_price_level(OrderSide::Ask, 100).is_none());
    assert_eq!(b.get_price_level(OrderSide::Ask, 110).unwrap().quantity, 5);
}

#[test]
fn snapshot_depth_in_priority_order() {
    let b = book();
    let s = b.get_snapshot(77);
    assert_eq!(s.bids, vec![(100, 7), (95, 2)]);
    assert_eq!(s.asks, vec![(105, 6), (110, 5)]);
    assert_eq!(s.sequence_number, 5);
    assert_eq!(s.timestamp, 77);
    let now = b.get_snapshot(78);
    assert_eq!(now.bids, s.bids);
}

#[test]
fn priority_iteration() {
    let b = book();
    let bids: Vec<u64> = b.get_bids_down_to_price(96).iter().map(|o| o.order_id).collect();
    assert_eq!(bids, vec![1, 2]);
    let all_bids: Vec<u64> = b.get_bids_down_to_price(0).iter().map(|o| o.order_id).collect();
    assert_eq!(all_bids, vec![1, 2, 3]);
    let asks: Vec<u64> = b.get_asks_up_to_price(107).iter().map(|o| o.order_id).collect();
    assert_eq!(asks, vec![5]);
    let mine: Vec<u64> = b.get_user_orders(&acct(1)).iter().map(|o| o.order_id).collect();
    assert_eq!(mine, vec![1, 3, 5]);
}

#[test]
fn remove_and_update() {
    let mut b = book();
    let o = b.remove_order(2).unwrap();
    assert_eq!(o.order_id, 2);
    assert!(b.get_order(2).is_none());
    assert!(matches!(b.remove_order(2), Err(ClobError::OrderNotFound)));
    assert_eq!(b.get_price_level(OrderSide::Bid, 100).unwrap().quantity, 3);
    assert!(matches!(b.update_order_quantity(1, 3), Err(ClobError::InvalidQuantity(_))));
    b.update_order_quantity(1, 1).unwrap();
    let u = b.get_order(1).unwrap();
    assert_eq!(u.remaining_quantity, 1);
    assert_eq!(u.status, OrderStatus::PartiallyFilled);
    b.update_order_quantity(1, 0).unwrap();
    assert!(b.get_order(1).is_none());
    assert_eq!(b.get_best_bid(), Some(95));
    assert!(matches!(b.update_order_quantity(99, 0), Err(ClobError::OrderNotFound)));
}

#[test]
fn market_stats() {
    let b = book();
    let s = b.get_market_stats();
    assert_eq!(s.best_bid, Some(100));
    assert_eq!(s.best_ask, Some(105));
    assert_eq!(s.spread, Some(5));
    assert_eq!(s.total_bid_orders, 3);
    assert_eq!(s.total_ask_orders, 2);
    assert_eq!(s.total_bid_quantity, 9);
    assert_eq!(s.total_ask_quantity, 11);
    assert_eq!(s.price_levels_count, 4);
}

#[test]
fn level_quantity_saturates() {
    let mut b = OrderBookManager::new(1, 1);
    b.add_order(resting(1, 1, OrderSide::Ask, 10, u64::MAX)).unwrap();
    b.add_order(resting(2, 2, OrderSide::Ask, 10, 5)).unwrap();
    assert_eq!(b.get_price_level(OrderSide::Ask, 10).unwrap().quantity, u64::MAX);
    assert_eq!(b.get_snapshot(0).asks, vec![(10, u64::MAX)]);
}

#[test]
fn restore_from_resting_orders() {
    let b = book();
    let bids = b.get_bids_down_to_price(0);
    let asks = b.get_asks_up_to_price(u64::MAX);
    let r = OrderBookManager::restore(5, 2, &bids, &asks, b.sequence_number()).unwrap();
    let s1 = b.get_snapshot(9);
    let s2 = r.get_snapshot(9);
    assert_eq!(s1.bids, s2.bids);
    assert_eq!(s1.asks, s2.asks);
    assert_eq!(s1.sequence_number, s2.sequence_number);
    assert_eq!(r.get_order(3).unwrap().price, 95);
}

#[test]
fn restore_refuses_invalid_journal() {
    let b = book();
    let mut bids = b.get_bids_down_to_price(0);
    let asks = b.get_asks_up_to_price(u64::MAX);
    bids.reverse();
    assert!(OrderBookManager::restore(5, 2, &bids, &asks, 5).is_err());
    let mut dup = b.get_bids_down_to_price(0);
    dup.push(asks[0]);
    assert!(OrderBookManager::restore(5, 2, &dup, &asks, 5).is_err());
    let crossing = vec![resting(8, 1, OrderSide::Bid, 105, 3)];
    assert!(OrderBookManager::restore(5, 2, &crossing, &asks, 5).is_err());
    assert!(OrderBookManager::restore(5, 2, &vec![], &vec![], 0).is_ok());
}

#[test]
fn add_order_keeps_time_order_within_price() {
    let mut b = OrderBookManager::new(1, 1);
    let mut late = resting(1, 1, OrderSide::Bid, 100, 2);
    late.timestamp = 10;
    b.add_order(late).unwrap();
    let mut early = resting(2, 2, OrderSide::Bid, 100, 2);
    early.timestamp = 9;
    assert!(matches!(b.add_order(early), Err(ClobError::TimestampOutOfOrder)));
    let mut other_price = resting(3, 2, OrderSide::Bid, 99, 2);
    other_price.timestamp = 1;
    assert!(b.add_order(other_price).is_ok());
    assert_eq!(b.latest_timestamp_at(OrderSide::Bid, 100), Some(10));
    assert_eq!(b.latest_timestamp_at(OrderSide::Bid, 98), None);
}
