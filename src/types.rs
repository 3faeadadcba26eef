use vstd::prelude::*;

verus! {

/// Opaque 32-byte owner identifier (the bytes of an on-chain account key).
pub type AccountId = [u8; 32];

/// Side of an order: a bid buys, an ask sells.
#[derive(Debug, Clone, Copy, PartialEq, Eq, Structural)]
pub enum OrderSide {
    Bid,
    Ask,
}

/// How an order meets the book.
#[derive(Debug, Clone, Copy, PartialEq, Eq, Structural)]
pub enum OrderType {
    Limit,
    Market,
    PostOnly,
}

/// Lifecycle state of an order.
#[derive(Debug, Clone, Copy, PartialEq, Eq, Structural)]
pub enum OrderStatus {
    Open,
    PartiallyFilled,
    Filled,
    Cancelled,
    Expired,
}

/// What happens when an order would trade against one of its owner's resting orders.
#[derive(Debug, Clone, Copy, PartialEq, Eq, Structural)]
pub enum SelfTradeBehavior {
    DecrementAndCancel,
    CancelProvide,
    CancelTake,
    CancelBoth,
}

/// How long an order stays eligible.
#[derive(Debug, Clone, Copy, PartialEq, Eq, Structural)]
pub enum TimeInForce {
    GoodTillCancelled,
    ImmediateOrCancel,
    FillOrKill,
    GoodTillTime,
}

pub open spec fn opposite(s: OrderSide) -> OrderSide {
    match s {
        OrderSide::Bid => OrderSide::Ask,
        OrderSide::Ask => OrderSide::Bid,
    }
}

pub open spec fn side_code(s: OrderSide) -> u8 {
    match s {
        OrderSide::Bid => 0,
        OrderSide::Ask => 1,
    }
}

pub open spec fn type_code(t: OrderType) -> u8 {
    match t {
        OrderType::Limit => 0,
        OrderType::Market => 1,
        OrderType::PostOnly => 2,
    }
}

pub open spec fn status_code(s: OrderStatus) -> u8 {
    match s {
        OrderStatus::Open => 0,
        OrderStatus::PartiallyFilled => 1,
        OrderStatus::Filled => 2,
        OrderStatus::Cancelled => 3,
        OrderStatus::Expired => 4,
    }
}

pub open spec fn stp_code(b: SelfTradeBehavior) -> u8 {
    match b {
        SelfTradeBehavior::DecrementAndCancel => 0,
        SelfTradeBehavior::CancelProvide => 1,
        SelfTradeBehavior::CancelTake => 2,
        SelfTradeBehavior::CancelBoth => 3,
    }
}

pub open spec fn tif_code(t: TimeInForce) -> u8 {
    match t {
        TimeInForce::GoodTillCancelled => 0,
        TimeInForce::ImmediateOrCancel => 1,
        TimeInForce::FillOrKill => 2,
        TimeInForce::GoodTillTime => 3,
    }
}

impl OrderSide {
    /// Wire value of the side.
    pub fn to_u8(self) -> (r: u8)
        ensures
            r == side_code(self),
    {
        match self {
            OrderSide::Bid => 0,
            OrderSide::Ask => 1,
        }
    }

    /// Side with the given wire value, if any.
    pub fn try_from_u8(v: u8) -> (r: Option<OrderSide>)
        ensures
            r matches Some(s) ==> side_code(s) == v,
            r is None <==> v > 1,
    {
        match v {
            0 => Some(OrderSide::Bid),
            1 => Some(OrderSide::Ask),
            _ => None,
        }
    }

    /// The side that a taker on this side trades against.
    pub fn opposite(self) -> (r: OrderSide)
        ensures
            r == opposite(self),
    {
        match self {
            OrderSide::Bid => OrderSide::Ask,
            OrderSide::Ask => OrderSide::Bid,
        }
    }

    pub fn name(self) -> (r: &'static str)
        ensures
            self is Bid ==> r@ == "Bid"@,
            self is Ask ==> r@ == "Ask"@,
    {
        match self {
            OrderSide::Bid => "Bid",
            OrderSide::Ask => "Ask",
        }
    }
}

impl OrderType {
    /// Wire value of the order type.
    pub fn to_u8(self) -> (r: u8)
        ensures
            r == type_code(self),
    {
        match self {
            OrderType::Limit => 0,
            OrderType::Market => 1,
            OrderType::PostOnly => 2,
        }
    }

    /// Order type with the given wire value, if any.
    pub fn try_from_u8(v: u8) -> (r: Option<OrderType>)
        ensures
            r matches Some(t) ==> type_code(t) == v,
            r is None <==> v > 2,
    {
        match v {
            0 => Some(OrderType::Limit),
            1 => Some(OrderType::Market),
            2 => Some(OrderType::PostOnly),
            _ => None,
        }
    }

    pub fn name(self) -> (r: &'static str)
        ensures
            self is Limit ==> r@ == "Limit"@,
            self is Market ==> r@ == "Market"@,
            self is PostOnly ==> r@ == "PostOnly"@,
    {
        match self {
            OrderType::Limit => "Limit",
            OrderType::Market => "Market",
            OrderType::PostOnly => "PostOnly",
        }
    }
}

impl OrderStatus {
    /// Wire value of the status.
    pub fn to_u8(self) -> (r: u8)
        ensures
            r == status_code(self),
    {
        match self {
            OrderStatus::Open => 0,
            OrderStatus::PartiallyFilled => 1,
            OrderStatus::Filled => 2,
            OrderStatus::Cancelled => 3,
            OrderStatus::Expired => 4,
        }
    }

    /// Status with the given wire value, if any.
    pub fn try_from_u8(v: u8) -> (r: Option<OrderStatus>)
        ensures
            r matches Some(s) ==> status_code(s) == v,
            r is None <==> v > 4,
    {
        match v {
            0 => Some(OrderStatus::Open),
            1 => Some(OrderStatus::PartiallyFilled),
            2 => Some(OrderStatus::Filled),
            3 => Some(OrderStatus::Cancelled),
            4 => Some(OrderStatus::Expired),
            _ => None,
        }
    }

    /// Filled, cancelled and expired orders never change again.
    pub fn is_terminal(self) -> (r: bool)
        ensures
            r == !(self is Open || self is PartiallyFilled),
    {
        match self {
            OrderStatus::Open | OrderStatus::PartiallyFilled => false,
            _ => true,
        }
    }

    pub fn name(self) -> (r: &'static str)
        ensures
            self is Open ==> r@ == "Open"@,
            self is PartiallyFilled ==> r@ == "PartiallyFilled"@,
            self is Filled ==> r@ == "Filled"@,
            self is Cancelled ==> r@ == "Cancelled"@,
            self is Expired ==> r@ == "Expired"@,
    {
        match self {
            OrderStatus::Open => "Open",
            OrderStatus::PartiallyFilled => "PartiallyFilled",
            OrderStatus::Filled => "Filled",
            OrderStatus::Cancelled => "Cancelled",
            OrderStatus::Expired => "Expired",
        }
    }
}

impl SelfTradeBehavior {
    /// Wire value of the self-trade behaviour.
    pub fn to_u8(self) -> (r: u8)
        ensures
            r == stp_code(self),
    {
        match self {
            SelfTradeBehavior::DecrementAndCancel => 0,
            SelfTradeBehavior::CancelProvide => 1,
            SelfTradeBehavior::CancelTake => 2,
            SelfTradeBehavior::CancelBoth => 3,
        }
    }

    /// Self-trade behaviour with the given wire value, if any.
    pub fn try_from_u8(v: u8) -> (r: Option<SelfTradeBehavior>)
        ensures
            r matches Some(b) ==> stp_code(b) == v,
            r is None <==> v > 3,
    {
        match v {
            0 => Some(SelfTradeBehavior::DecrementAndCancel),
            1 => Some(SelfTradeBehavior::CancelProvide),
            2 => Some(SelfTradeBehavior::CancelTake),
            3 => Some(SelfTradeBehavior::CancelBoth),
            _ => None,
        }
    }
}

impl TimeInForce {
    /// Wire value of the time in force.
    pub fn to_u8(self) -> (r: u8)
        ensures
            r == tif_code(self),
    {
        match self {
            TimeInForce::GoodTillCancelled => 0,
            TimeInForce::ImmediateOrCancel => 1,
            TimeInForce::FillOrKill => 2,
            TimeInForce::GoodTillTime => 3,
        }
    }

    /// Time in force with the given wire value, if any.
    pub fn try_from_u8(v: u8) -> (r: Option<TimeInForce>)
        ensures
            r matches Some(t) ==> tif_code(t) == v,
            r is None <==> v > 3,
    {
        match v {
            0 => Some(TimeInForce::GoodTillCancelled),
            1 => Some(TimeInForce::ImmediateOrCancel),
            2 => Some(TimeInForce::FillOrKill),
            3 => Some(TimeInForce::GoodTillTime),
            _ => None,
        }
    }
}

/// An order, as the engine and the book hold it.
#[derive(Debug, Clone, Copy)]
pub struct Order {
    pub order_id: u64,
    pub owner: AccountId,
    /// Price in ticks (0 for a market order).
    pub price: u64,
    /// Quantity in lots when placed.
    pub quantity: u64,
    pub remaining_quantity: u64,
    /// Creation time, seconds since the epoch.
    pub timestamp: i64,
    pub client_order_id: u64,
    /// Expiry time of a good-till-time order; 0 otherwise.
    pub expiry_timestamp: i64,
    pub side: OrderSide,
    pub order_type: OrderType,
    pub status: OrderStatus,
    pub self_trade_behavior: SelfTradeBehavior,
    pub time_in_force: TimeInForce,
}

/// Market configuration and counters.
#[derive(Debug, Clone, Copy)]
pub struct OrderBook {
    pub authority: AccountId,
    pub base_mint: AccountId,
    pub quote_mint: AccountId,
    pub tick_size: u64,
    pub min_order_size: u64,
    pub sequence_number: u64,
    pub total_orders: u64,
    pub best_bid: u64,
    pub best_ask: u64,
    pub total_volume: u64,
    pub is_initialized: bool,
    pub is_paused: bool,
}

/// Per-owner account counters.
#[derive(Debug, Clone, Copy)]
pub struct UserAccount {
    pub owner: AccountId,
    pub open_orders_count: u64,
    pub total_orders_placed: u64,
    pub total_volume_traded: u64,
    pub is_initialized: bool,
}

/// Aggregate of the resting orders at one price on one side.
#[derive(Debug, Clone, Copy, PartialEq, Eq, Structural)]
pub struct PriceLevel {
    pub price: u64,
    /// Sum of the remaining quantities (saturating at `u64::MAX`).
    pub quantity: u64,
    /// Number of resting orders (saturating at `u32::MAX`).
    pub order_count: u32,
}

/// One execution between a resting maker and an incoming taker.
#[derive(Debug, Clone, Copy)]
pub struct TradeExecution {
    pub maker_order_id: u64,
    pub taker_order_id: u64,
    pub maker_owner: AccountId,
    pub taker_owner: AccountId,
    /// Always the maker's price.
    pub price: u64,
    pub quantity: u64,
    pub timestamp: i64,
    pub maker_side: OrderSide,
}

/// Aggregated depth: bids by descending price, asks by ascending price.
#[derive(Debug, Clone)]
pub struct OrderBookSnapshot {
    pub bids: Vec<(u64, u64)>,
    pub asks: Vec<(u64, u64)>,
    pub sequence_number: u64,
    pub timestamp: i64,
}

/// Kind of a market-data update.
#[derive(Debug, Clone, Copy, PartialEq, Eq, Structural)]
pub enum MarketDataUpdateType {
    OrderBookUpdate,
    TradeExecution,
    OrderUpdate,
}

/// A change sent to subscribers.
#[derive(Debug, Clone)]
pub struct MarketDataUpdate {
    pub update_type: MarketDataUpdateType,
    pub order_book: Option<OrderBookSnapshot>,
    pub trade: Option<TradeExecution>,
    pub order: Option<Order>,
    pub timestamp: i64,
}

/// Fields of a new order as a caller submits them.
#[derive(Debug, Clone, Copy)]
pub struct PlaceOrderRequest {
    pub client_order_id: u64,
    pub owner: AccountId,
    pub side: OrderSide,
    pub order_type: OrderType,
    pub price: u64,
    pub quantity: u64,
    pub time_in_force: TimeInForce,
    pub expiry_timestamp: Option<i64>,
    pub self_trade_behavior: SelfTradeBehavior,
}

/// Cancel by engine id or by the owner's client id.
#[derive(Debug, Clone, Copy)]
pub struct CancelOrderRequest {
    pub order_id: Option<u64>,
    pub client_order_id: Option<u64>,
}

/// New price and/or quantity for a resting order.
#[derive(Debug, Clone, Copy)]
pub struct ModifyOrderRequest {
    pub order_id: Option<u64>,
    pub client_order_id: Option<u64>,
    pub new_price: Option<u64>,
    pub new_quantity: Option<u64>,
}

/// Errors of the order book and the engine.
#[derive(Debug, Clone)]
pub enum ClobError {
    InvalidOrderSide,
    InvalidOrderType,
    InvalidPrice(String),
    InvalidQuantity(String),
    OrderSizeBelowMinimum,
    PriceNotAlignedToTickSize,
    OrderbookPaused,
    InsufficientBalance,
    OrderNotFound,
    DuplicateOrderId,
    TimestampOutOfOrder,
    Unauthorized,
    SelfTradeDetected,
    OrderExpired,
    MarketOrderWouldCrossSpread,
    PostOnlyOrderWouldMatch,
    FOKOrderNotFilled,
    SlippageExceeded,
    StorageError(String),
    NetworkError(String),
    SerializationError(String),
}

pub type ClobResult<T> = Result<T, ClobError>;

/// Builds an error message from a literal.
pub fn message(s: &str) -> (r: String)
    ensures
        r@ == s@,
{
    s.to_string()
}

impl Order {
    /// The order that a placement request describes, with the engine's id and time.
    pub fn from_request(request: &PlaceOrderRequest, order_id: u64, timestamp: i64) -> (r: Order)
        ensures
            r == order_from_request(*request, order_id, timestamp),
    {
        let expiry_timestamp = match request.expiry_timestamp {
            Some(t) => t,
            None => 0,
        };
        Order {
            order_id,
            owner: request.owner,
            price: request.price,
            quantity: request.quantity,
            remaining_quantity: request.quantity,
            timestamp,
            client_order_id: request.client_order_id,
            expiry_timestamp,
            side: request.side,
            order_type: request.order_type,
            status: OrderStatus::Open,
            self_trade_behavior: request.self_trade_behavior,
            time_in_force: request.time_in_force,
        }
    }
}

pub open spec fn order_from_request(request: PlaceOrderRequest, order_id: u64, timestamp: i64) -> Order {
    Order {
        order_id,
        owner: request.owner,
        price: request.price,
        quantity: request.quantity,
        remaining_quantity: request.quantity,
        timestamp,
        client_order_id: request.client_order_id,
        expiry_timestamp: match request.expiry_timestamp {
            Some(t) => t,
            None => 0,
        },
        side: request.side,
        order_type: request.order_type,
        status: OrderStatus::Open,
        self_trade_behavior: request.self_trade_behavior,
        time_in_force: request.time_in_force,
    }
}

/// Whether two owners are the same account.
pub fn same_account(a: &AccountId, b: &AccountId) -> (r: bool)
    ensures
        r == (a@ == b@),
{
    let mut i: usize = 0;
    while i < 32
        invariant
            i <= 32,
            a@.len() == 32,
            b@.len() == 32,
            forall|j: int| 0 <= j < i ==> a@[j] == b@[j],
        decreases 32 - i,
    {
        if a[i] != b[i] {
            return false;
        }
        i = i + 1;
    }
    proof {
        assert(a@ =~= b@);
    }
    true
}

} // verus!
