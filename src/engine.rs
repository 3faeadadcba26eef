use vstd::prelude::*;

use crate::book::{
    add_refusal, applied, arrival_stamp, as_expired, book_ok, lemma_arrives_last, lemma_removed_ok, depth, expired, has_client_id, lemma_locate, lemma_removed_absent, lemma_rest_ids,
    lemma_rest_no_cross, locate, lookup, snapshot_of, normalized, resting_ok, same_error, status_for, would_cross, with_added,
    with_amended, with_removed, BookModel, OrderBookManager,
};
use crate::matching::{cancelled, filled, match_result, MatchState};
use crate::types::{
    message, opposite, same_account, AccountId, ClobError, ClobResult, Order, OrderBook, OrderBookSnapshot, OrderSide,
    OrderStatus, OrderType, TimeInForce, TradeExecution,
};

verus! {

/// What a placement hands back: the taker as it ends, the executions, and the makers that
/// the executions or self-trade prevention touched.
pub struct PlaceOrderOutcome {
    pub order: Order,
    pub trades: Vec<TradeExecution>,
    /// Makers taken off the book (filled, or cancelled by self-trade prevention).
    pub removed: Vec<Order>,
    /// A maker left partially filled at the front of the book.
    pub updated: Option<Order>,
}

/// The effect of a placement that passed validation.
pub struct Placement {
    pub order: Order,
    pub trades: Seq<TradeExecution>,
    pub removed: Seq<Order>,
    pub updated: Option<Order>,
    pub book: BookModel,
}

/// The book after the engine numbers a new order.
pub open spec fn numbered(m: BookModel) -> BookModel {
    BookModel { sequence_number: (m.sequence_number + 1) as u64, ..m }
}

/// The incoming order as the engine takes it: a fresh id, stamped with its arrival time
/// (`now`, or the latest time at its price if the clock reads earlier), nothing filled yet,
/// and an expiry only where the time in force is good-till-time.
pub open spec fn taker_of(m: BookModel, o: Order, now: i64) -> Order {
    Order {
        order_id: (m.sequence_number + 1) as u64,
        remaining_quantity: o.quantity,
        status: OrderStatus::Open,
        timestamp: arrival_stamp(m.side(o.side), o.side, o.price, now),
        expiry_timestamp: if o.time_in_force is GoodTillTime { o.expiry_timestamp } else { 0 },
        ..o
    }
}

/// An order of this owner with this client id is live.
pub open spec fn client_id_live(m: BookModel, owner: AccountId, client_order_id: u64) -> bool {
    has_client_id(m.bids, owner, client_order_id) || has_client_id(m.asks, owner, client_order_id)
}

/// Why a placement is refused, if it is; checked in this order, before any change.
pub open spec fn placement_error(c: OrderBook, m: BookModel, o: Order, now: i64) -> Option<ClobError> {
    if c.is_paused {
        Some(ClobError::OrderbookPaused)
    } else if o.time_in_force is GoodTillTime && o.expiry_timestamp <= now {
        Some(ClobError::OrderExpired)
    } else if o.quantity < c.min_order_size {
        Some(ClobError::OrderSizeBelowMinimum)
    } else if !(o.order_type is Market) && o.price % c.tick_size != 0 {
        Some(ClobError::PriceNotAlignedToTickSize)
    } else if !(o.order_type is Market) && o.price == 0 {
        Some(ClobError::InvalidPrice(arbitrary()))
    } else if client_id_live(m, o.owner, o.client_order_id) || m.contains_id((m.sequence_number + 1) as u64) {
        Some(ClobError::DuplicateOrderId)
    } else if o.order_type is PostOnly && would_cross(m, o.side, o.price) {
        Some(ClobError::PostOnlyOrderWouldMatch)
    } else {
        None
    }
}

/// A fill-or-kill taker that the book cannot fill completely.
pub open spec fn kills(t: Order, st: MatchState) -> bool {
    t.time_in_force is FillOrKill && (st.taker_cancelled || st.remaining > 0)
}

/// A taker whose remainder is cancelled rather than rested.
pub open spec fn drops_remainder(t: Order, st: MatchState) -> bool {
    st.taker_cancelled || (st.remaining > 0 && (t.order_type is Market || t.time_in_force is ImmediateOrCancel))
}

/// What a valid placement does.
pub open spec fn placement(m: BookModel, o: Order, now: i64) -> Placement {
    let t = taker_of(m, o, now);
    let m1 = numbered(m);
    if o.order_type is PostOnly {
        Placement {
            order: normalized(t),
            trades: Seq::empty(),
            removed: Seq::empty(),
            updated: None,
            book: with_added(m1, t),
        }
    } else {
        let st = match_result(t, m1.side(opposite(t.side)), now);
        if kills(t, st) {
            Placement { order: cancelled(t), trades: Seq::empty(), removed: Seq::empty(), updated: None, book: m1 }
        } else {
            let m2 = applied(m1, t.side, st);
            let left = Order { remaining_quantity: st.remaining, ..t };
            if drops_remainder(t, st) {
                Placement { order: cancelled(left), trades: st.trades, removed: st.removed, updated: st.head, book: m2 }
            } else if st.remaining == 0 {
                Placement { order: filled(left), trades: st.trades, removed: st.removed, updated: st.head, book: m2 }
            } else {
                Placement {
                    order: normalized(left),
                    trades: st.trades,
                    removed: st.removed,
                    updated: st.head,
                    book: with_added(m2, left),
                }
            }
        }
    }
}

/// Price and quantity an order would have after a modification.
pub open spec fn modify_target(o: Order, new_price: Option<u64>, new_quantity: Option<u64>) -> (u64, u64) {
    (
        match new_price {
            Some(p) => p,
            None => o.price,
        },
        match new_quantity {
            Some(q) => q,
            None => o.quantity,
        },
    )
}

/// The order after a modification to price `p` and quantity `q`: what was filled stays filled.
pub open spec fn modified_order(o: Order, p: u64, q: u64) -> Order {
    let remaining = (q - (o.quantity - o.remaining_quantity)) as u64;
    Order { price: p, quantity: q, remaining_quantity: remaining, status: status_for(remaining, q), ..o }
}

/// A modification keeps time priority when the price stays and the quantity does not grow.
pub open spec fn keeps_priority(o: Order, p: u64, q: u64) -> bool {
    p == o.price && q <= o.quantity
}

/// Why a modification is refused, if it is.
pub open spec fn modify_error(
    c: OrderBook,
    m: BookModel,
    order_id: u64,
    caller: AccountId,
    new_price: Option<u64>,
    new_quantity: Option<u64>,
) -> Option<ClobError> {
    match lookup(m, order_id) {
        None => Some(ClobError::OrderNotFound),
        Some(o) => {
            let (p, q) = modify_target(o, new_price, new_quantity);
            if o.owner@ != caller@ {
                Some(ClobError::Unauthorized)
            } else if p == 0 {
                Some(ClobError::InvalidPrice(arbitrary()))
            } else if p % c.tick_size != 0 {
                Some(ClobError::PriceNotAlignedToTickSize)
            } else if q < c.min_order_size {
                Some(ClobError::OrderSizeBelowMinimum)
            } else if q <= o.quantity - o.remaining_quantity {
                Some(ClobError::InvalidQuantity(arbitrary()))
            } else if !keeps_priority(o, p, q) && would_cross(m, o.side, p) {
                Some(ClobError::InvalidPrice(arbitrary()))
            } else {
                None
            }
        },
    }
}

/// The order after a valid modification at time `now`: in place it keeps its timestamp;
/// put back at the tail of its price it arrives anew.
pub open spec fn modified_result(
    m: BookModel,
    order_id: u64,
    new_price: Option<u64>,
    new_quantity: Option<u64>,
    now: i64,
) -> Order {
    let (side, k) = locate(m, order_id).unwrap();
    let o = m.side(side)[k];
    let (p, q) = modify_target(o, new_price, new_quantity);
    let n = modified_order(o, p, q);
    if keeps_priority(o, p, q) {
        n
    } else {
        Order { timestamp: arrival_stamp(with_removed(m, side, k).side(side), side, p, now), ..n }
    }
}

/// The book after a valid modification: amended in place, or taken off and put back at the
/// tail of its new price.
pub open spec fn modified_book(
    m: BookModel,
    order_id: u64,
    new_price: Option<u64>,
    new_quantity: Option<u64>,
    now: i64,
) -> BookModel {
    match locate(m, order_id) {
        Some((side, k)) => {
            let o = m.side(side)[k];
            let (p, q) = modify_target(o, new_price, new_quantity);
            let n = modified_result(m, order_id, new_price, new_quantity, now);
            if keeps_priority(o, p, q) {
                with_amended(m, side, k, q, n.remaining_quantity)
            } else {
                with_added(with_removed(m, side, k), n)
            }
        },
        None => m,
    }
}

/// A valid modification that loses priority can rest its order again once the old one is off.
proof fn lemma_repost_allowed(
    c: OrderBook,
    m: BookModel,
    order_id: u64,
    caller: AccountId,
    new_price: Option<u64>,
    new_quantity: Option<u64>,
    side: OrderSide,
    k: int,
    now: i64,
)
    requires
        book_ok(with_removed(m, side, k)),
        c.tick_size == m.tick_size,
        c.min_order_size == m.min_order_size,
        locate(m, order_id) == Some((side, k)),
        lookup(m, order_id) == Some(m.side(side)[k]),
        m.side(side)[k].order_id == order_id,
        resting_ok(m.side(side)[k], side, m.tick_size),
        !with_removed(m, side, k).contains_id(order_id),
        modify_error(c, m, order_id, caller, new_price, new_quantity) is None,
        !keeps_priority(
            m.side(side)[k],
            modify_target(m.side(side)[k], new_price, new_quantity).0,
            modify_target(m.side(side)[k], new_price, new_quantity).1,
        ),
    ensures
        ({
            let o = m.side(side)[k];
            let (p, q) = modify_target(o, new_price, new_quantity);
            let n = Order {
                timestamp: arrival_stamp(with_removed(m, side, k).side(side), side, p, now),
                ..modified_order(o, p, q)
            };
            add_refusal(with_removed(m, side, k), n) is None && normalized(n) == n
        }),
{
    let o = m.side(side)[k];
    let (p, q) = modify_target(o, new_price, new_quantity);
    let r = with_removed(m, side, k);
    let n = Order { timestamp: arrival_stamp(r.side(side), side, p, now), ..modified_order(o, p, q) };
    lemma_arrives_last(r.side(side), side, n);
    assert(r.side(opposite(side)) == m.side(opposite(side)));
    assert(would_cross(r, side, p) == would_cross(m, side, p));
    assert(add_refusal(r, n) is None);
}

/// The policy outcome a caller sees for a placement: a fill-or-kill order that ended
/// cancelled was not filled.
pub fn placement_rejection(outcome: &PlaceOrderOutcome) -> (r: Option<ClobError>)
    ensures
        r is Some <==> (outcome.order.time_in_force is FillOrKill && outcome.order.status is Cancelled),
        r matches Some(e) ==> e is FOKOrderNotFilled,
{
    if outcome.order.time_in_force == TimeInForce::FillOrKill && outcome.order.status == OrderStatus::Cancelled {
        Some(ClobError::FOKOrderNotFilled)
    } else {
        None
    }
}

/// Matches incoming orders against one market's book.
pub struct MatchingEngine {
    order_book: OrderBookManager,
    orderbook_config: OrderBook,
}

impl MatchingEngine {
    pub closed spec fn book(&self) -> BookModel {
        self.order_book@
    }

    pub closed spec fn config(&self) -> OrderBook {
        self.orderbook_config
    }

    pub open spec fn wf(&self) -> bool {
        &&& book_ok(self.book())
        &&& self.config().tick_size == self.book().tick_size
        &&& self.config().min_order_size == self.book().min_order_size
    }

    /// An engine over an empty book with the market's tick size and minimum order size.
    pub fn new(orderbook_config: OrderBook) -> (r: MatchingEngine)
        requires
            orderbook_config.tick_size > 0,
            orderbook_config.min_order_size > 0,
        ensures
            r.wf(),
            r.config() == orderbook_config,
            r.book().bids.len() == 0,
            r.book().asks.len() == 0,
            r.book().sequence_number == 0,
    {
        MatchingEngine {
            order_book: OrderBookManager::new(orderbook_config.tick_size, orderbook_config.min_order_size),
            orderbook_config,
        }
    }

    /// The book, for reading.
    pub fn order_book(&self) -> (r: &OrderBookManager)
        ensures
            r@ == self.book(),
    {
        &self.order_book
    }

    /// Market configuration.
    pub fn orderbook_config(&self) -> (r: OrderBook)
        ensures
            r == self.config(),
    {
        self.orderbook_config
    }

    /// Pauses or resumes trading.
    pub fn set_paused(&mut self, paused: bool)
        ensures
            final(self).book() == old(self).book(),
            final(self).config() == (OrderBook { is_paused: paused, ..old(self).config() }),
    {
        self.orderbook_config.is_paused = paused;
    }

    /// Whether every operation can still number its mutations.
    pub fn has_sequence_room(&self) -> (r: bool)
        ensures
            r == self.book().has_room(),
    {
        self.order_book.has_sequence_room()
    }

    /// Places an order arriving at time `now` (seconds since the epoch; it stamps the order
    /// and its executions): validation, then matching in price-time priority, then time in
    /// force.
    pub fn place_order(&mut self, order: Order, now: i64) -> (r: ClobResult<PlaceOrderOutcome>)
        requires
            old(self).wf(),
            old(self).book().has_room(),
        ensures
            final(self).wf(),
            final(self).config() == old(self).config(),
            match placement_error(old(self).config(), old(self).book(), order, now) {
                Some(e) => r matches Err(e2) && same_error(e, e2) && final(self).book() == old(self).book(),
                None => r matches Ok(out) && {
                    let p = placement(old(self).book(), order, now);
                    &&& out.order == p.order
                    &&& out.trades@ == p.trades
                    &&& out.removed@ == p.removed
                    &&& out.updated == p.updated
                    &&& final(self).book() == p.book
                },
            },
    {
        let ghost m = self.order_book@;
        let config = self.orderbook_config;
        if config.is_paused {
            return Err(ClobError::OrderbookPaused);
        }
        if order.time_in_force == TimeInForce::GoodTillTime && order.expiry_timestamp <= now {
            return Err(ClobError::OrderExpired);
        }
        if order.quantity < config.min_order_size {
            return Err(ClobError::OrderSizeBelowMinimum);
        }
        let is_market = order.order_type == OrderType::Market;
        if !is_market && order.price % config.tick_size != 0 {
            return Err(ClobError::PriceNotAlignedToTickSize);
        }
        if !is_market && order.price == 0 {
            return Err(ClobError::InvalidPrice(message("a limit price must be positive")));
        }
        let order_id = self.order_book.sequence_number() + 1;
        if self.order_book.has_client_order(&order.owner, order.client_order_id) || self.order_book.contains_order(
            order_id,
        ) {
            return Err(ClobError::DuplicateOrderId);
        }
        let post_only = order.order_type == OrderType::PostOnly;
        if post_only && self.order_book.would_cross(order.side, order.price) {
            return Err(ClobError::PostOnlyOrderWouldMatch);
        }
        let expiry_timestamp = if order.time_in_force == TimeInForce::GoodTillTime {
            order.expiry_timestamp
        } else {
            0
        };
        let timestamp = match self.order_book.latest_timestamp_at(order.side, order.price) {
            Some(t) => if t > now {
                t
            } else {
                now
            },
            None => now,
        };
        let taker = Order {
            order_id,
            remaining_quantity: order.quantity,
            status: OrderStatus::Open,
            timestamp,
            expiry_timestamp,
            ..order
        };
        assert(taker == taker_of(m, order, now));
        proof {
            lemma_arrives_last(m.side(order.side), order.side, taker);
        }
        self.order_book.advance_sequence();
        let ghost m1 = self.order_book@;
        assert(m1 == numbered(m));
        if post_only {
            let added = self.order_book.add_order(taker);
            assert(added is Ok);
            let resting = Order {
                status: if taker.remaining_quantity == taker.quantity {
                    OrderStatus::Open
                } else {
                    OrderStatus::PartiallyFilled
                },
                ..taker
            };
            return Ok(PlaceOrderOutcome { order: resting, trades: Vec::new(), removed: Vec::new(), updated: None });
        }
        let run = self.order_book.match_against(&taker, now);
        let ghost st = match_result(taker, m1.side(opposite(taker.side)), now);
        if taker.time_in_force == TimeInForce::FillOrKill && (run.taker_cancelled || run.remaining > 0) {
            let killed = Order { status: OrderStatus::Cancelled, ..taker };
            return Ok(PlaceOrderOutcome { order: killed, trades: Vec::new(), removed: Vec::new(), updated: None });
        }
        self.order_book.apply_match(&taker, now, &run);
        let ghost m2 = self.order_book@;
        let left = Order { remaining_quantity: run.remaining, ..taker };
        let final_order = if run.taker_cancelled || (run.remaining > 0 && (is_market || taker.time_in_force
            == TimeInForce::ImmediateOrCancel)) {
            Order { status: OrderStatus::Cancelled, ..left }
        } else if run.remaining == 0 {
            Order { remaining_quantity: 0, status: OrderStatus::Filled, ..left }
        } else {
            proof {
                lemma_rest_ids(taker, m1.side(opposite(taker.side)), now, st, order_id);
                lemma_rest_no_cross(taker, m1.side(opposite(taker.side)), now, st);
            }
            let added = self.order_book.add_order(left);
            assert(added is Ok);
            Order {
                status: if left.remaining_quantity == left.quantity {
                    OrderStatus::Open
                } else {
                    OrderStatus::PartiallyFilled
                },
                ..left
            }
        };
        Ok(PlaceOrderOutcome { order: final_order, trades: run.trades, removed: run.removed, updated: run.head })
    }

    /// Cancels a resting order of `caller`.
    #[verifier::rlimit(30)]
    pub fn cancel_order(&mut self, order_id: u64, caller: &AccountId) -> (r: ClobResult<Order>)
        requires
            old(self).wf(),
            old(self).book().has_room(),
        ensures
            final(self).wf(),
            final(self).config() == old(self).config(),
            match locate(old(self).book(), order_id) {
                None => r matches Err(ClobError::OrderNotFound) && final(self).book() == old(self).book(),
                Some((side, k)) => {
                    let o = old(self).book().side(side)[k];
                    if o.owner@ != caller@ {
                        r matches Err(ClobError::Unauthorized) && final(self).book() == old(self).book()
                    } else {
                        r == Ok::<Order, ClobError>(cancelled(o)) && final(self).book() == with_removed(
                            old(self).book(),
                            side,
                            k,
                        )
                    }
                },
            },
    {
        let ghost m = self.order_book@;
        let found = match self.order_book.get_order(order_id) {
            Some(o) => o,
            None => return Err(ClobError::OrderNotFound),
        };
        if !same_account(&found.owner, caller) {
            return Err(ClobError::Unauthorized);
        }
        let removed = self.order_book.remove_order(order_id);
        assert(removed == Ok::<Order, ClobError>(found));
        let o = found;
        Ok(Order { status: OrderStatus::Cancelled, ..o })
    }

    /// The order as a modification would leave it, or why the modification is refused.
    fn plan_modify(
        &self,
        order_id: u64,
        caller: &AccountId,
        new_price: Option<u64>,
        new_quantity: Option<u64>,
    ) -> (r: ClobResult<Order>)
        requires
            self.wf(),
        ensures
            match modify_error(self.config(), self.book(), order_id, *caller, new_price, new_quantity) {
                Some(e) => r matches Err(e2) && same_error(e, e2),
                None => r matches Ok(o) && {
                    let old_o = lookup(self.book(), order_id).unwrap();
                    let (p, q) = modify_target(old_o, new_price, new_quantity);
                    o == modified_order(old_o, p, q)
                },
            },
    {
        proof {
            lemma_locate(self.book(), order_id);
        }
        let found = match self.order_book.get_order(order_id) {
            Some(o) => o,
            None => return Err(ClobError::OrderNotFound),
        };
        if !same_account(&found.owner, caller) {
            return Err(ClobError::Unauthorized);
        }
        let price = match new_price {
            Some(p) => p,
            None => found.price,
        };
        let quantity = match new_quantity {
            Some(q) => q,
            None => found.quantity,
        };
        if price == 0 {
            return Err(ClobError::InvalidPrice(message("a limit price must be positive")));
        }
        if price % self.orderbook_config.tick_size != 0 {
            return Err(ClobError::PriceNotAlignedToTickSize);
        }
        if quantity < self.orderbook_config.min_order_size {
            return Err(ClobError::OrderSizeBelowMinimum);
        }
        let filled = found.quantity - found.remaining_quantity;
        if quantity <= filled {
            return Err(ClobError::InvalidQuantity(message("the new quantity must exceed what is already filled")));
        }
        let keeps = price == found.price && quantity <= found.quantity;
        if !keeps && self.order_book.would_cross(found.side, price) {
            return Err(ClobError::InvalidPrice(message("the new price would cross the book")));
        }
        let remaining = quantity - filled;
        let status = if remaining == quantity {
            OrderStatus::Open
        } else {
            OrderStatus::PartiallyFilled
        };
        Ok(Order { price, quantity, remaining_quantity: remaining, status, ..found })
    }

    /// Gives the order with this id the quantities of `moved` in place.
    #[verifier::rlimit(100)]
    fn amend_in_place(&mut self, order_id: u64, moved: Order, Ghost(side): Ghost<OrderSide>, Ghost(k): Ghost<int>)
        requires
            old(self).wf(),
            old(self).book().has_room(),
            locate(old(self).book(), order_id) == Some((side, k)),
            0 < moved.remaining_quantity <= moved.quantity,
            moved == (Order {
                quantity: moved.quantity,
                remaining_quantity: moved.remaining_quantity,
                status: status_for(moved.remaining_quantity, moved.quantity),
                ..old(self).book().side(side)[k]
            }),
        ensures
            final(self).wf(),
            final(self).config() == old(self).config(),
            final(self).book() == with_amended(old(self).book(), side, k, moved.quantity, moved.remaining_quantity),
    {
        let ghost m = self.order_book@;
        let _ = self.order_book.amend_order(order_id, moved.quantity, moved.remaining_quantity);
        assert(self.order_book@ == with_amended(m, side, k, moved.quantity, moved.remaining_quantity));
    }

    /// Takes the order with this id off the book and rests `moved`, arriving at `now`, at
    /// the tail of its price.
    fn repost(
        &mut self,
        order_id: u64,
        moved: Order,
        now: i64,
        Ghost(side): Ghost<OrderSide>,
        Ghost(k): Ghost<int>,
    ) -> (r: Order)
        requires
            old(self).wf(),
            old(self).book().has_room(),
            locate(old(self).book(), order_id) == Some((side, k)),
            moved.side == side,
            add_refusal(
                with_removed(old(self).book(), side, k),
                Order {
                    timestamp: arrival_stamp(with_removed(old(self).book(), side, k).side(side), side, moved.price, now),
                    ..moved
                },
            ) is None,
        ensures
            r == (Order {
                timestamp: arrival_stamp(with_removed(old(self).book(), side, k).side(side), side, moved.price, now),
                ..moved
            }),
            final(self).wf(),
            final(self).config() == old(self).config(),
            final(self).book() == with_added(with_removed(old(self).book(), side, k), r),
    {
        let _ = self.order_book.remove_order(order_id);
        let timestamp = match self.order_book.latest_timestamp_at(moved.side, moved.price) {
            Some(t) => if t > now {
                t
            } else {
                now
            },
            None => now,
        };
        let stamped = Order { timestamp, ..moved };
        let _ = self.order_book.add_order(stamped);
        stamped
    }

    /// Changes the price and/or quantity of a resting order of `caller`. A lower quantity at
    /// the same price keeps the order's place; any other change puts it at the tail of its
    /// price, and must not cross the book.
    #[verifier::rlimit(100)]
    pub fn modify_order(
        &mut self,
        order_id: u64,
        caller: &AccountId,
        new_price: Option<u64>,
        new_quantity: Option<u64>,
        now: i64,
    ) -> (r: ClobResult<Order>)
        requires
            old(self).wf(),
            old(self).book().has_room(),
        ensures
            final(self).wf(),
            final(self).config() == old(self).config(),
            match modify_error(old(self).config(), old(self).book(), order_id, *caller, new_price, new_quantity) {
                Some(e) => r matches Err(e2) && same_error(e, e2) && final(self).book() == old(self).book(),
                None => final(self).book() == modified_book(old(self).book(), order_id, new_price, new_quantity, now)
                    && r == Ok::<Order, ClobError>(modified_result(old(self).book(), order_id, new_price, new_quantity, now)),
            },
    {
        let ghost m = self.order_book@;
        proof {
            lemma_locate(m, order_id);
        }
        let moved = match self.plan_modify(order_id, caller, new_price, new_quantity) {
            Ok(o) => o,
            Err(e) => return Err(e),
        };
        let found = match self.order_book.get_order(order_id) {
            Some(o) => o,
            None => return Err(ClobError::OrderNotFound),
        };
        let ghost side = locate(m, order_id).unwrap().0;
        let ghost k = locate(m, order_id).unwrap().1;
        if moved.price == found.price && moved.quantity <= found.quantity {
            self.amend_in_place(order_id, moved, Ghost(side), Ghost(k));
            return Ok(moved);
        }
        proof {
            lemma_removed_absent(m, order_id, side, k);
            lemma_removed_ok(m, side, k);
            lemma_repost_allowed(self.config(), m, order_id, *caller, new_price, new_quantity, side, k, now);
        }
        let stamped = self.repost(order_id, moved, now, Ghost(side), Ghost(k));
        Ok(stamped)
    }

    /// Takes off the book every good-till-time order whose expiry is at or before `now`,
    /// and returns them marked expired. No expired order is left, so sweeping again at the
    /// same time removes nothing.
    pub fn expire_orders(&mut self, now: i64) -> (r: Vec<Order>)
        requires
            old(self).wf(),
            old(self).book().has_room(),
        ensures
            final(self).wf(),
            final(self).config() == old(self).config(),
            final(self).book().bids == old(self).book().bids.filter(|o: Order| !expired(o, now)),
            final(self).book().asks == old(self).book().asks.filter(|o: Order| !expired(o, now)),
            r@ == (old(self).book().bids + old(self).book().asks).filter(|o: Order| expired(o, now)).map_values(
                |o: Order| as_expired(o),
            ),
            final(self).book().sequence_number == old(self).book().sequence_number + r@.len(),
            forall|i: int| 0 <= i < final(self).book().bids.len() ==> !expired(#[trigger] final(self).book().bids[i], now),
            forall|i: int| 0 <= i < final(self).book().asks.len() ==> !expired(#[trigger] final(self).book().asks[i], now),
    {
        self.order_book.expire_orders(now)
    }

    /// The resting order with this id, if any.
    pub fn get_order(&self, order_id: u64) -> (r: Option<Order>)
        ensures
            r == lookup(self.book(), order_id),
    {
        self.order_book.get_order(order_id)
    }

    /// Aggregated depth of the book, stamped `timestamp`.
    pub fn get_order_book_snapshot(&self, timestamp: i64) -> (r: ClobResult<OrderBookSnapshot>)
        ensures
            r matches Ok(s) && (s.bids@, s.asks@, s.sequence_number, s.timestamp) == snapshot_of(self.book(), timestamp),
    {
        Ok(self.order_book.get_snapshot(timestamp))
    }
}

} // verus!
