use svm_clob::api::{account_id_from_text, error_status, trade_stats, trades_limit, validate_config, ConfigError};
use svm_clob::codec::{
    decode_order, decode_snapshot, decode_trade, encode_order, encode_snapshot, encode_trade, ORDER_RECORD_LEN,
    TRADE_RECORD_LEN,
};
use svm_clob::fanout::{
    handle_incoming_message, should_send_update, subscriptions_match, ClientConnection, KeepAlive, Subscription,
    WebSocketMessage,
};
use svm_clob::types::{
    AccountId, ClobError, MarketDataUpdate, MarketDataUpdateType, Order, OrderBookSnapshot, OrderSide, OrderStatus, OrderType, SelfTradeBehavior,
    TimeInForce, TradeExecution,
};

fn acct(n: u8) -> AccountId {
    [n; 32]
}

fn sample_order() -> Order {
    Order {
        order_id: 0x0102030405060708,
        owner: acct(9),
        price: 100,
        quantity: 5,
        remaining_quantity: 2,
        timestamp: -3,
        client_order_id: 42,
        expiry_timestamp: 1_700_000_000,
        side: OrderSide::Ask,
        order_type: OrderType::PostOnly,
        status: OrderStatus::PartiallyFilled,
        self_trade_behavior: SelfTradeBehavior::CancelBoth,
        time_in_force: TimeInForce::GoodTillTime,
    }
}

fn sample_trade() -> TradeExecution {
    TradeExecution {
        maker_order_id: 1,
        taker_order_id: 2,
        maker_owner: acct(1),
        taker_owner: acct(2),
        price: 100,
        quantity: 3,
        timestamp: 1_000,
        maker_side: OrderSide::Ask,
    }
}

#[test]
fn order_record_round_trip() {
    let o = sample_order();
    let bytes = encode_order(&o);
    assert_eq!(bytes.len(), ORDER_RECORD_LEN);
    assert_eq!(&bytes[0..8], &[8, 7, 6, 5, 4, 3, 2, 1]);
    assert_eq!(&bytes[64..72], &(-3i64).to_le_bytes());
    assert_eq!(&bytes[88..93], &[1, 2, 1, 3, 3]);
    let back = decode_order(&bytes).unwrap();
    assert_eq!(encode_order(&back), bytes);
    assert_eq!(back.order_id, o.order_id);
    assert_eq!(back.owner, o.owner);
    assert_eq!(back.timestamp, -3);
    assert_eq!(back.status, OrderStatus::PartiallyFilled);
}

#[test]
fn order_record_rejects_bad_input() {
    let mut bytes = encode_order(&sample_order());
    assert!(decode_order(&bytes[..92]).is_none());
    bytes[88] = 2;
    assert!(decode_order(&bytes).is_none());
}

#[test]
fn trade_record_round_trip() {
    let t = sample_trade();
    let bytes = encode_trade(&t);
    assert_eq!(bytes.len(), TRADE_RECORD_LEN);
    assert_eq!(bytes[104], 1);
    let back = decode_trade(&bytes).unwrap();
    assert_eq!(encode_trade(&back), bytes);
    assert_eq!(back.quantity, 3);
    let mut bad = bytes.clone();
    bad[104] = 7;
    assert!(decode_trade(&bad).is_none());
}

fn update(kind: MarketDataUpdateType, owner: Option<u8>) -> MarketDataUpdate {
    MarketDataUpdate {
        update_type: kind,
        order_book: None,
        trade: None,
        order: owner.map(|n| Order { owner: acct(n), ..sample_order() }),
        timestamp: 0,
    }
}

#[test]
fn delivery_follows_subscriptions() {
    let client = ClientConnection {
        id: 1,
        subscriptions: vec![Subscription::Trades { market: "SOL/USDC".to_string() }, Subscription::UserOrders {
            user: acct(4),
        }],
        connected_at: 0,
    };
    assert!(should_send_update(&client, &update(MarketDataUpdateType::TradeExecution, None)));
    assert!(!should_send_update(&client, &update(MarketDataUpdateType::OrderBookUpdate, None)));
    assert!(should_send_update(&client, &update(MarketDataUpdateType::OrderUpdate, Some(4))));
    assert!(!should_send_update(&client, &update(MarketDataUpdateType::OrderUpdate, Some(5))));
    let all = ClientConnection { id: 2, subscriptions: vec![Subscription::AllMarkets], connected_at: 0 };
    assert!(should_send_update(&all, &update(MarketDataUpdateType::OrderBookUpdate, None)));
    let none = ClientConnection { id: 3, subscriptions: vec![], connected_at: 0 };
    assert!(!should_send_update(&none, &update(MarketDataUpdateType::TradeExecution, None)));
}

#[test]
fn session_messages() {
    let mut subs: Vec<Subscription> = Vec::new();
    let book = Subscription::OrderBook { market: "SOL/USDC".to_string() };
    assert!(handle_incoming_message(&mut subs, WebSocketMessage::Subscribe { subscription: book.clone() }).is_none());
    assert!(handle_incoming_message(&mut subs, WebSocketMessage::Subscribe { subscription: Subscription::AllMarkets }).is_none());
    assert_eq!(subs.len(), 2);
    let other = Subscription::OrderBook { market: "BTC/USDC".to_string() };
    assert!(handle_incoming_message(&mut subs, WebSocketMessage::Unsubscribe { subscription: other }).is_none());
    assert_eq!(subs.len(), 2);
    assert!(handle_incoming_message(&mut subs, WebSocketMessage::Unsubscribe { subscription: book.clone() }).is_none());
    assert_eq!(subs.len(), 1);
    assert!(subscriptions_match(&subs[0], &Subscription::AllMarkets));
    assert!(matches!(handle_incoming_message(&mut subs, WebSocketMessage::Ping), Some(WebSocketMessage::Pong)));
    assert!(matches!(
        handle_incoming_message(&mut subs, WebSocketMessage::Pong),
        Some(WebSocketMessage::Error { code: 400, .. })
    ));
    assert!(!subscriptions_match(&book, &Subscription::Trades { market: "SOL/USDC".to_string() }));
}

#[test]
fn trade_limits() {
    assert_eq!(trades_limit(None), 100);
    assert_eq!(trades_limit(Some(5)), 5);
    assert_eq!(trades_limit(Some(1000)), 1000);
    assert_eq!(trades_limit(Some(5000)), 1000);
}

#[test]
fn stats_over_trades() {
    let mut a = sample_trade();
    a.price = 105;
    a.quantity = 2;
    let mut b = sample_trade();
    b.price = 99;
    b.quantity = 4;
    let c = sample_trade();
    let s = trade_stats(&vec![a, b, c]);
    assert_eq!(s.last_price, Some(105));
    assert_eq!(s.volume_24h, 9);
    assert_eq!(s.high_24h, Some(105));
    assert_eq!(s.low_24h, Some(99));
    let e = trade_stats(&vec![]);
    assert_eq!(e.last_price, None);
    assert_eq!(e.volume_24h, 0);
    assert_eq!(e.high_24h, None);
}

#[test]
fn account_text() {
    assert_eq!(account_id_from_text("11111111111111111111111111111111"), Some([0u8; 32]));
    let usdc = account_id_from_text("EPjFWdd5AufqSSqeM2qN1xzybapC8G4wEGGkZwyTDt1v").unwrap();
    assert_ne!(usdc, [0u8; 32]);
    assert_eq!(account_id_from_text("not a key"), None);
}

#[test]
fn config_validation() {
    let sol = "So11111111111111111111111111111111111111112";
    let usdc = "EPjFWdd5AufqSSqeM2qN1xzybapC8G4wEGGkZwyTDt1v";
    assert_eq!(validate_config("postgresql://localhost/clob", "redis://localhost:6379", sol, usdc, 1000, 1), Ok(()));
    assert_eq!(
        validate_config("mysql://localhost", "redis://localhost:6379", sol, usdc, 1000, 1),
        Err(ConfigError::InvalidDatabaseUrl)
    );
    assert_eq!(
        validate_config("postgresql://x", "http://localhost", sol, usdc, 1000, 1),
        Err(ConfigError::InvalidRedisUrl)
    );
    assert_eq!(validate_config("postgresql://x", "redis://x", "bad", usdc, 1000, 1), Err(ConfigError::InvalidBaseMint));
    assert_eq!(validate_config("postgresql://x", "redis://x", sol, "0OIl", 1000, 1), Err(ConfigError::InvalidQuoteMint));
    assert_eq!(validate_config("postgresql://x", "redis://x", sol, usdc, 0, 1), Err(ConfigError::ZeroTickSize));
    assert_eq!(validate_config("postgresql://x", "redis://x", sol, usdc, 1, 0), Err(ConfigError::ZeroMinOrderSize));
}

#[test]
fn wire_values() {
    assert_eq!(OrderSide::Ask.to_u8(), 1);
    assert_eq!(OrderType::PostOnly.to_u8(), 2);
    assert_eq!(OrderStatus::Expired.to_u8(), 4);
    assert_eq!(SelfTradeBehavior::CancelBoth.to_u8(), 3);
    assert_eq!(TimeInForce::GoodTillTime.to_u8(), 3);
    assert_eq!(OrderStatus::try_from_u8(3), Some(OrderStatus::Cancelled));
    assert_eq!(OrderStatus::try_from_u8(5), None);
    assert_eq!(OrderSide::try_from_u8(2), None);
    assert_eq!(TimeInForce::try_from_u8(1), Some(TimeInForce::ImmediateOrCancel));
    assert_eq!(OrderStatus::PartiallyFilled.name(), "PartiallyFilled");
    assert!(OrderStatus::Filled.is_terminal());
    assert!(!OrderStatus::Open.is_terminal());
}

#[test]
fn snapshot_record_round_trip() {
    let s = OrderBookSnapshot { bids: vec![(100, 7), (95, 2)], asks: vec![(105, 6)], sequence_number: 12, timestamp: -1 };
    let bytes = encode_snapshot(&s);
    assert_eq!(bytes.len(), 32 + 16 * 3);
    assert_eq!(&bytes[16..24], &2u64.to_le_bytes());
    let back = decode_snapshot(&bytes).unwrap();
    assert_eq!(encode_snapshot(&back), bytes);
    assert_eq!(back.bids, s.bids);
    assert_eq!(back.asks, s.asks);
    assert_eq!(back.timestamp, -1);
    assert!(decode_snapshot(&bytes[..bytes.len() - 1]).is_none());
    let empty = OrderBookSnapshot { bids: vec![], asks: vec![], sequence_number: 0, timestamp: 0 };
    assert_eq!(decode_snapshot(&encode_snapshot(&empty)).unwrap().sequence_number, 0);
}

#[test]
fn http_status_of_errors() {
    assert_eq!(error_status(&ClobError::OrderNotFound), 404);
    assert_eq!(error_status(&ClobError::Unauthorized), 403);
    assert_eq!(error_status(&ClobError::PostOnlyOrderWouldMatch), 409);
    assert_eq!(error_status(&ClobError::FOKOrderNotFilled), 409);
    assert_eq!(error_status(&ClobError::StorageError("down".to_string())), 500);
    assert_eq!(error_status(&ClobError::OrderSizeBelowMinimum), 400);
    assert_eq!(error_status(&ClobError::InvalidPrice("zero".to_string())), 400);
}

#[test]
fn keepalive_closes_after_two_unanswered_pings() {
    let mut k = KeepAlive::new();
    assert!(!k.ping_due());
    assert!(!k.ping_due());
    assert!(k.ping_due());
    k.pong_received();
    assert_eq!(k.unanswered, 0);
    assert!(!k.ping_due());
}
