use vstd::prelude::*;

use crate::matching::{
    all_positive, can_step, crosses, events_of, good, init_state, lemma_init_good, lemma_step_good,
    match_result, match_step,
    rest_of, run_match, MatchState,
};
use crate::types::{
    message, opposite, same_account, AccountId, ClobError, Order, OrderBookSnapshot, OrderSide, OrderStatus, OrderType,
    PriceLevel, SelfTradeBehavior, TimeInForce, TradeExecution,
};

verus! {

/// What an order book is: the resting orders of each side in priority order, and its
/// configuration and counter.
pub struct BookModel {
    /// Resting bids, best (highest) price first, oldest first within a price.
    pub bids: Seq<Order>,
    /// Resting asks, best (lowest) price first, oldest first within a price.
    pub asks: Seq<Order>,
    pub sequence_number: u64,
    pub tick_size: u64,
    pub min_order_size: u64,
}

impl BookModel {
    pub open spec fn side(self, side: OrderSide) -> Seq<Order> {
        match side {
            OrderSide::Bid => self.bids,
            OrderSide::Ask => self.asks,
        }
    }

    pub open spec fn with_side(self, side: OrderSide, s: Seq<Order>) -> BookModel {
        match side {
            OrderSide::Bid => BookModel { bids: s, ..self },
            OrderSide::Ask => BookModel { asks: s, ..self },
        }
    }

    pub open spec fn best(self, side: OrderSide) -> Option<u64> {
        if self.side(side).len() > 0 {
            Some(self.side(side)[0].price)
        } else {
            None
        }
    }

    /// No more than `u64::MAX` mutations can still be numbered after any operation.
    pub open spec fn has_room(self) -> bool {
        self.sequence_number + self.bids.len() + self.asks.len() + 2 <= u64::MAX
    }

    pub open spec fn contains_id(self, id: u64) -> bool {
        has_id(self.bids, id) || has_id(self.asks, id)
    }
}

/// `a` is at least as good a price as `b` for a resting order on `side`.
pub open spec fn as_good(side: OrderSide, a: u64, b: u64) -> bool {
    match side {
        OrderSide::Bid => a >= b,
        OrderSide::Ask => a <= b,
    }
}

pub open spec fn has_id(s: Seq<Order>, id: u64) -> bool {
    exists|i: int| 0 <= i < s.len() && (#[trigger] s[i]).order_id == id
}

/// Priority order of a side: better prices first, and within a price, timestamps never
/// decrease (arrival order).
pub open spec fn sorted_side(s: Seq<Order>, side: OrderSide) -> bool {
    forall|i: int, j: int|
        0 <= i < j < s.len() ==> as_good(side, #[trigger] s[i].price, #[trigger] s[j].price) && (s[i].price
            == s[j].price ==> s[i].timestamp <= s[j].timestamp)
}

/// `o` arrives no earlier than every order of `s` at its price.
pub open spec fn arrives_last(s: Seq<Order>, o: Order) -> bool {
    forall|i: int| 0 <= i < s.len() && (#[trigger] s[i]).price == o.price ==> s[i].timestamp <= o.timestamp
}

/// Timestamp of the last order at `price` on a side, if any rests there.
pub open spec fn latest_at(s: Seq<Order>, side: OrderSide, price: u64) -> Option<i64> {
    let p = tail_pos(s, side, price);
    if p > 0 && s[p - 1].price == price {
        Some(s[p - 1].timestamp)
    } else {
        None
    }
}

/// The arrival time of an order at `price` that comes at `now`: never earlier than the
/// orders already resting at that price.
pub open spec fn arrival_stamp(s: Seq<Order>, side: OrderSide, price: u64, now: i64) -> i64 {
    match latest_at(s, side, price) {
        Some(t) => if t > now { t } else { now },
        None => now,
    }
}

pub open spec fn status_for(remaining: u64, quantity: u64) -> OrderStatus {
    if remaining == quantity {
        OrderStatus::Open
    } else {
        OrderStatus::PartiallyFilled
    }
}

/// A resting order: on its side, at a positive price on the tick grid, with something
/// left, and with the status that its quantities give.
pub open spec fn resting_ok(o: Order, side: OrderSide, tick: u64) -> bool {
    &&& o.side == side
    &&& o.price > 0
    &&& tick > 0
    &&& o.price % tick == 0
    &&& 0 < o.remaining_quantity <= o.quantity
    &&& o.status == status_for(o.remaining_quantity, o.quantity)
}

pub open spec fn side_ok(s: Seq<Order>, side: OrderSide, tick: u64) -> bool {
    &&& sorted_side(s, side)
    &&& forall|i: int| 0 <= i < s.len() ==> resting_ok(#[trigger] s[i], side, tick)
}

/// The best bid is below the best ask.
pub open spec fn spread_ok(m: BookModel) -> bool {
    m.bids.len() > 0 && m.asks.len() > 0 ==> m.bids[0].price < m.asks[0].price
}

/// No two orders of `s` share an id.
pub open spec fn unique_ids(s: Seq<Order>) -> bool {
    forall|i: int, j: int|
        0 <= i < s.len() && 0 <= j < s.len() && i != j ==> (#[trigger] s[i]).order_id != (#[trigger] s[j]).order_id
}

/// No order of `a` shares an id with an order of `b`.
pub open spec fn disjoint_ids(a: Seq<Order>, b: Seq<Order>) -> bool {
    forall|i: int, j: int|
        0 <= i < a.len() && 0 <= j < b.len() ==> (#[trigger] a[i]).order_id != (#[trigger] b[j]).order_id
}

/// Every resting order has an id of its own.
#[verifier::opaque]
pub open spec fn ids_ok(bids: Seq<Order>, asks: Seq<Order>) -> bool {
    unique_ids(bids) && unique_ids(asks) && disjoint_ids(bids, asks)
}

/// Well-formedness of a book.
pub open spec fn book_ok(m: BookModel) -> bool {
    &&& m.tick_size > 0
    &&& m.min_order_size > 0
    &&& side_ok(m.bids, OrderSide::Bid, m.tick_size)
    &&& side_ok(m.asks, OrderSide::Ask, m.tick_size)
    &&& spread_ok(m)
    &&& ids_ok(m.bids, m.asks)
}

proof fn lemma_disjoint_sym(a: Seq<Order>, b: Seq<Order>)
    requires
        disjoint_ids(a, b),
    ensures
        disjoint_ids(b, a),
{
    assert forall|i: int, j: int| 0 <= i < b.len() && 0 <= j < a.len() implies (#[trigger] b[i]).order_id
        != (#[trigger] a[j]).order_id by {
        assert(a[j].order_id != b[i].order_id);
    }
}

/// A sequence whose ids are those of `s` at increasing positions keeps the ids of `s`
/// unique and apart from those of `other`.
proof fn lemma_ids_sub(s: Seq<Order>, t: Seq<Order>, f: spec_fn(int) -> int, other: Seq<Order>)
    requires
        unique_ids(s),
        disjoint_ids(s, other),
        forall|i: int| 0 <= i < t.len() ==> 0 <= #[trigger] f(i) < s.len() && t[i].order_id == s[f(i)].order_id,
        forall|i: int, j: int| 0 <= i < j < t.len() ==> #[trigger] f(i) < #[trigger] f(j),
    ensures
        unique_ids(t),
        disjoint_ids(t, other),
{
    assert forall|i: int, j: int| 0 <= i < t.len() && 0 <= j < t.len() && i != j implies (#[trigger] t[i]).order_id
        != (#[trigger] t[j]).order_id by {
        assert(f(i) != f(j));
        assert(s[f(i)].order_id != s[f(j)].order_id);
    }
    assert forall|i: int, j: int| 0 <= i < t.len() && 0 <= j < other.len() implies (#[trigger] t[i]).order_id
        != (#[trigger] other[j]).order_id by {
        assert(s[f(i)].order_id != other[j].order_id);
    }
}

proof fn lemma_ids_insert(s: Seq<Order>, p: int, x: Order, other: Seq<Order>)
    requires
        unique_ids(s),
        disjoint_ids(s, other),
        !has_id(s, x.order_id),
        !has_id(other, x.order_id),
        0 <= p <= s.len(),
    ensures
        unique_ids(s.insert(p, x)),
        disjoint_ids(s.insert(p, x), other),
{
    let t = s.insert(p, x);
    assert forall|i: int, j: int| 0 <= i < t.len() && 0 <= j < t.len() && i != j implies (#[trigger] t[i]).order_id
        != (#[trigger] t[j]).order_id by {
        let a = if i < p { i } else { i - 1 };
        let b = if j < p { j } else { j - 1 };
        if i == p {
            assert(t[j] == s[b]);
        } else if j == p {
            assert(t[i] == s[a]);
        } else {
            assert(t[i] == s[a] && t[j] == s[b]);
        }
    }
    assert forall|i: int, j: int| 0 <= i < t.len() && 0 <= j < other.len() implies (#[trigger] t[i]).order_id
        != (#[trigger] other[j]).order_id by {
        if i < p {
            assert(t[i] == s[i]);
        } else if i > p {
            assert(t[i] == s[i - 1]);
        }
    }
}

/// Replacing one side by `t` keeps ids apart when `t` has unique ids apart from the other side.
proof fn lemma_ids_with_side(m: BookModel, side: OrderSide, t: Seq<Order>)
    requires
        ids_ok(m.bids, m.asks),
        unique_ids(t),
        disjoint_ids(t, m.side(opposite(side))),
    ensures
        ids_ok(m.with_side(side, t).bids, m.with_side(side, t).asks),
{
    reveal(ids_ok);
    if side is Ask {
        lemma_disjoint_sym(t, m.bids);
    }
}

pub proof fn lemma_side_disjoint(m: BookModel, side: OrderSide)
    requires
        ids_ok(m.bids, m.asks),
    ensures
        unique_ids(m.side(side)),
        disjoint_ids(m.side(side), m.side(opposite(side))),
{
    reveal(ids_ok);
    if side is Ask {
        lemma_disjoint_sym(m.bids, m.asks);
    }
}

/// Where a new order goes on a side: after the last order whose price is at least as good.
pub open spec fn tail_pos(s: Seq<Order>, side: OrderSide, price: u64) -> int
    decreases s.len(),
{
    if s.len() == 0 {
        0
    } else if as_good(side, s.last().price, price) {
        s.len() as int
    } else {
        tail_pos(s.drop_last(), side, price)
    }
}

/// The order as it rests: its status follows from its quantities.
pub open spec fn normalized(o: Order) -> Order {
    Order { status: status_for(o.remaining_quantity, o.quantity), ..o }
}

/// A new order at `price` on `side` would trade against the other side's best.
pub open spec fn would_cross(m: BookModel, side: OrderSide, price: u64) -> bool {
    match side {
        OrderSide::Bid => m.asks.len() > 0 && m.asks[0].price <= price,
        OrderSide::Ask => m.bids.len() > 0 && m.bids[0].price >= price,
    }
}

/// Why `add_order` refuses `o`, if it does.
pub open spec fn add_refusal(m: BookModel, o: Order) -> Option<ClobError> {
    if o.price % m.tick_size != 0 {
        Some(ClobError::PriceNotAlignedToTickSize)
    } else if o.quantity < m.min_order_size {
        Some(ClobError::OrderSizeBelowMinimum)
    } else if o.remaining_quantity == 0 || o.remaining_quantity > o.quantity {
        Some(ClobError::InvalidQuantity(arbitrary()))
    } else if o.price == 0 || would_cross(m, o.side, o.price) {
        Some(ClobError::InvalidPrice(arbitrary()))
    } else if m.contains_id(o.order_id) {
        Some(ClobError::DuplicateOrderId)
    } else if !arrives_last(m.side(o.side), o) {
        Some(ClobError::TimestampOutOfOrder)
    } else {
        None
    }
}

pub open spec fn same_error(a: ClobError, b: ClobError) -> bool {
    match (a, b) {
        (ClobError::InvalidPrice(_), ClobError::InvalidPrice(_)) => true,
        (ClobError::InvalidQuantity(_), ClobError::InvalidQuantity(_)) => true,
        _ => a == b,
    }
}

/// The book after resting `o`.
pub open spec fn with_added(m: BookModel, o: Order) -> BookModel {
    BookModel {
        sequence_number: (m.sequence_number + 1) as u64,
        ..m.with_side(o.side, m.side(o.side).insert(tail_pos(m.side(o.side), o.side, o.price), normalized(o)))
    }
}

/// Index of the first order with this id (meaningful where there is one).
pub open spec fn first_index(s: Seq<Order>, id: u64) -> int {
    choose|i: int| 0 <= i < s.len() && s[i].order_id == id && forall|j: int| 0 <= j < i ==> (#[trigger] s[j]).order_id != id
}

/// Where the order with this id rests: bids are looked at first.
pub open spec fn locate(m: BookModel, id: u64) -> Option<(OrderSide, int)> {
    if has_id(m.bids, id) {
        Some((OrderSide::Bid, first_index(m.bids, id)))
    } else if has_id(m.asks, id) {
        Some((OrderSide::Ask, first_index(m.asks, id)))
    } else {
        None
    }
}

pub open spec fn lookup(m: BookModel, id: u64) -> Option<Order> {
    match locate(m, id) {
        Some((side, k)) => Some(m.side(side)[k]),
        None => None,
    }
}

/// The book after the order at index `k` of `side` leaves it.
pub open spec fn with_removed(m: BookModel, side: OrderSide, k: int) -> BookModel {
    BookModel { sequence_number: (m.sequence_number + 1) as u64, ..m.with_side(side, m.side(side).remove(k)) }
}

/// The book after the order at index `k` of `side` is reduced to `remaining`.
pub open spec fn with_reduced(m: BookModel, side: OrderSide, k: int, remaining: u64) -> BookModel {
    let o = m.side(side)[k];
    BookModel {
        sequence_number: (m.sequence_number + 1) as u64,
        ..m.with_side(
            side,
            m.side(side).update(k, Order { remaining_quantity: remaining, status: OrderStatus::PartiallyFilled, ..o }),
        )
    }
}

pub open spec fn sat(x: int) -> u64 {
    if x > u64::MAX {
        u64::MAX
    } else if x < 0 {
        0
    } else {
        x as u64
    }
}

pub open spec fn sat32(x: int) -> u32 {
    if x > u32::MAX {
        u32::MAX
    } else if x < 0 {
        0
    } else {
        x as u32
    }
}

/// Sum of the remaining quantities of the orders at `price`.
pub open spec fn level_sum(s: Seq<Order>, price: u64) -> int
    decreases s.len(),
{
    if s.len() == 0 {
        0
    } else {
        level_sum(s.drop_last(), price) + if s.last().price == price { s.last().remaining_quantity as int } else { 0 }
    }
}

/// Number of orders at `price`.
pub open spec fn level_count(s: Seq<Order>, price: u64) -> int
    decreases s.len(),
{
    if s.len() == 0 {
        0
    } else {
        level_count(s.drop_last(), price) + if s.last().price == price { 1int } else { 0int }
    }
}

/// Sum of the remaining quantities of a side.
pub open spec fn side_total(s: Seq<Order>) -> int
    decreases s.len(),
{
    if s.len() == 0 {
        0
    } else {
        side_total(s.drop_last()) + s.last().remaining_quantity
    }
}

/// Depth of a side in priority order: one entry per run of equal prices, with the sum of
/// their remaining quantities (saturating at `u64::MAX`).
pub open spec fn depth(s: Seq<Order>) -> Seq<(u64, u64)>
    decreases s.len(),
{
    if s.len() == 0 {
        Seq::empty()
    } else {
        let d = depth(s.drop_last());
        let o = s.last();
        if d.len() > 0 && d.last().0 == o.price {
            d.update(d.len() - 1, (o.price, sat(d.last().1 + o.remaining_quantity)))
        } else {
            d.push((o.price, o.remaining_quantity))
        }
    }
}

/// Aggregated view of a book at a moment.
pub open spec fn snapshot_of(m: BookModel, timestamp: i64) -> (Seq<(u64, u64)>, Seq<(u64, u64)>, u64, i64) {
    (depth(m.bids), depth(m.asks), m.sequence_number, timestamp)
}

/// The book after a matching run of a taker on `side` is applied to the other side.
pub open spec fn applied(m: BookModel, side: OrderSide, st: MatchState) -> BookModel {
    BookModel {
        sequence_number: (m.sequence_number + events_of(st)) as u64,
        ..m.with_side(opposite(side), rest_of(st, m.side(opposite(side))))
    }
}

proof fn lemma_applied_ok(m: BookModel, taker: Order, now: i64, st: MatchState)
    requires
        book_ok(m),
        good(taker, m.side(opposite(taker.side)), now, st),
    ensures
        book_ok(applied(m, taker.side, st)),
{
    let opp = opposite(taker.side);
    let makers = m.side(opp);
    let rest = rest_of(st, makers);
    let shift: int = if st.head is Some { st.next - 1 } else { st.next };
    assert forall|k: int| 0 <= k < rest.len() implies (#[trigger] rest[k]).price == makers[k + shift].price && (k > 0
        || st.head is None ==> rest[k] == makers[k + shift]) by {
    }
    assert forall|i: int, j: int| 0 <= i < j < rest.len() implies as_good(opp, #[trigger] rest[i].price, #[trigger] rest[j].price) && (rest[i].price == rest[j].price ==> rest[i].timestamp <= rest[j].timestamp) by {
        assert(rest[i].price == makers[i + shift].price);
        assert(rest[j].price == makers[j + shift].price);
    }
    assert forall|i: int| 0 <= i < rest.len() implies resting_ok(#[trigger] rest[i], opp, m.tick_size) by {
        if i > 0 || st.head is None {
            assert(rest[i] == makers[i + shift]);
        } else {
            assert(resting_ok(makers[shift], opp, m.tick_size));
        }
    }
    if rest.len() > 0 {
        assert(rest[0].price == makers[shift].price);
        if shift > 0 {
            assert(as_good(opp, makers[0].price, makers[shift].price));
        }
    }
    lemma_side_disjoint(m, opp);
    let f = |i: int| i + shift;
    assert forall|i: int| 0 <= i < rest.len() implies 0 <= #[trigger] f(i) < makers.len() && rest[i].order_id
        == makers[f(i)].order_id by {
        assert(rest[i].order_id == makers[i + shift].order_id);
    }
    lemma_ids_sub(makers, rest, f, m.side(opposite(opp)));
    assert(opposite(opp) == taker.side);
    lemma_ids_with_side(m, opp, rest);
}

/// An order of `owner` with client id `client_order_id` rests on `s`.
pub open spec fn has_client_id(s: Seq<Order>, owner: AccountId, client_order_id: u64) -> bool {
    exists|i: int| 0 <= i < s.len() && (#[trigger] s[i]).owner@ == owner@ && s[i].client_order_id == client_order_id
}

/// After a run, the other side holds no id that it did not hold before.
pub proof fn lemma_rest_ids(taker: Order, makers: Seq<Order>, now: i64, st: MatchState, id: u64)
    requires
        good(taker, makers, now, st),
        !has_id(makers, id),
    ensures
        !has_id(rest_of(st, makers), id),
{
    let rest = rest_of(st, makers);
    let shift: int = if st.head is Some { st.next - 1 } else { st.next };
    assert forall|k: int| 0 <= k < rest.len() implies (#[trigger] rest[k]).order_id != id by {
        assert(rest[k].order_id == makers[k + shift].order_id);
    }
}

/// A taker that is left over, not cancelled, and not a market order does not cross what
/// remains of the other side.
pub proof fn lemma_rest_no_cross(taker: Order, makers: Seq<Order>, now: i64, st: MatchState)
    requires
        good(taker, makers, now, st),
        !can_step(makers, st),
        !st.taker_cancelled,
        st.remaining > 0,
    ensures
        rest_of(st, makers).len() > 0 ==> !crosses(taker, rest_of(st, makers)[0].price),
{
}

/// The book after the order at index `k` of `side` takes a new quantity and remaining
/// quantity in place, keeping its priority.
pub open spec fn with_amended(m: BookModel, side: OrderSide, k: int, quantity: u64, remaining: u64) -> BookModel {
    let o = m.side(side)[k];
    BookModel {
        sequence_number: (m.sequence_number + 1) as u64,
        ..m.with_side(
            side,
            m.side(side).update(
                k,
                Order { quantity, remaining_quantity: remaining, status: status_for(remaining, quantity), ..o },
            ),
        )
    }
}

/// A good-till-time order whose time has come.
pub open spec fn expired(o: Order, now: i64) -> bool {
    o.time_in_force is GoodTillTime && o.expiry_timestamp <= now
}

pub open spec fn as_expired(o: Order) -> Order {
    Order { status: OrderStatus::Expired, ..o }
}

/// Replacing a side of a well-formed book by orders taken from it at increasing positions
/// keeps the book well-formed.
proof fn lemma_sub_side_ok(m: BookModel, side: OrderSide, t: Seq<Order>, f: spec_fn(int) -> int)
    requires
        book_ok(m),
        forall|i: int| 0 <= i < t.len() ==> 0 <= #[trigger] f(i) < m.side(side).len() && t[i] == m.side(side)[f(i)],
        forall|i: int, j: int| 0 <= i < j < t.len() ==> #[trigger] f(i) < #[trigger] f(j),
    ensures
        book_ok(m.with_side(side, t)),
{
    let s = m.side(side);
    assert forall|i: int, j: int| 0 <= i < j < t.len() implies as_good(side, #[trigger] t[i].price, #[trigger] t[j].price) && (t[i].price == t[j].price ==> t[i].timestamp <= t[j].timestamp) by {
        assert(f(i) < f(j));
        assert(as_good(side, s[f(i)].price, s[f(j)].price));
    }
    assert forall|i: int| 0 <= i < t.len() implies resting_ok(#[trigger] t[i], side, m.tick_size) by {
        assert(resting_ok(s[f(i)], side, m.tick_size));
    }
    if t.len() > 0 && f(0) > 0 {
        assert(as_good(side, s[0].price, s[f(0)].price));
    }
    lemma_side_disjoint(m, side);
    assert forall|i: int| 0 <= i < t.len() implies 0 <= #[trigger] f(i) < s.len() && t[i].order_id == s[f(i)].order_id by {
    }
    lemma_ids_sub(s, t, f, m.side(opposite(side)));
    lemma_ids_with_side(m, side, t);
}

/// Once the order at `k` of `side` has left, no resting order has its id.
#[verifier::rlimit(40)]
pub proof fn lemma_removed_absent(m: BookModel, order_id: u64, side: OrderSide, k: int)
    requires
        book_ok(m),
        locate(m, order_id) == Some((side, k)),
    ensures
        !with_removed(m, side, k).contains_id(order_id),
        locate(with_removed(m, side, k), order_id) is None,
{
    let s = m.side(side);
    let o = m.side(opposite(side));
    lemma_side_disjoint(m, side);
    assert(has_id(s, order_id));
    assert(0 <= k < s.len() && s[k].order_id == order_id);
    let t = s.remove(k);
    assert forall|i: int| 0 <= i < t.len() implies (#[trigger] t[i]).order_id != order_id by {
        if i < k {
            assert(t[i] == s[i]);
            assert(s[i].order_id != s[k].order_id);
        } else {
            assert(t[i] == s[i + 1]);
            assert(s[i + 1].order_id != s[k].order_id);
        }
    }
    assert forall|j: int| 0 <= j < o.len() implies (#[trigger] o[j]).order_id != order_id by {
        assert(s[k].order_id != o[j].order_id);
    }
    assert(!has_id(t, order_id));
    assert(!has_id(o, order_id));
}

proof fn lemma_tail_pos(s: Seq<Order>, side: OrderSide, price: u64)
    requires
        sorted_side(s, side),
    ensures
        0 <= tail_pos(s, side, price) <= s.len(),
        forall|i: int| 0 <= i < tail_pos(s, side, price) ==> as_good(side, #[trigger] s[i].price, price),
        forall|i: int| tail_pos(s, side, price) <= i < s.len() ==> !as_good(side, #[trigger] s[i].price, price),
    decreases s.len(),
{
    if s.len() > 0 {
        if !as_good(side, s.last().price, price) {
            lemma_tail_pos(s.drop_last(), side, price);
            assert forall|i: int| tail_pos(s, side, price) <= i < s.len() implies !as_good(side, #[trigger] s[i].price, price) by {
                if i < s.len() - 1 {
                    assert(s[i] == s.drop_last()[i]);
                }
            }
            assert forall|i: int| 0 <= i < tail_pos(s, side, price) implies as_good(side, #[trigger] s[i].price, price) by {
                assert(s[i] == s.drop_last()[i]);
            }
        } else {
            assert forall|i: int| 0 <= i < tail_pos(s, side, price) implies as_good(side, #[trigger] s[i].price, price) by {
                if i < s.len() - 1 {
                    assert(as_good(side, s[i].price, s[s.len() - 1].price));
                }
            }
        }
    }
}

/// An order arrives no earlier than those at its price exactly when it arrives no earlier
/// than the last of them.
pub proof fn lemma_arrives_last(s: Seq<Order>, side: OrderSide, o: Order)
    requires
        sorted_side(s, side),
    ensures
        arrives_last(s, o) <==> (latest_at(s, side, o.price) matches Some(t) ==> t <= o.timestamp),
{
    lemma_tail_pos(s, side, o.price);
    let p = tail_pos(s, side, o.price);
    if latest_at(s, side, o.price) matches Some(t) {
        if arrives_last(s, o) {
            assert(s[p - 1].price == o.price);
        }
    }
    if (latest_at(s, side, o.price) matches Some(t) ==> t <= o.timestamp) {
        assert forall|i: int| 0 <= i < s.len() && (#[trigger] s[i]).price == o.price implies s[i].timestamp
            <= o.timestamp by {
            assert(as_good(side, s[i].price, o.price));
            if i < p - 1 {
                assert(as_good(side, s[i].price, s[p - 1].price));
                assert(as_good(side, s[p - 1].price, o.price));
                assert(s[p - 1].price == o.price);
            }
        }
    }
}

proof fn lemma_insert_sorted(s: Seq<Order>, side: OrderSide, tick: u64, o: Order)
    requires
        side_ok(s, side, tick),
        resting_ok(o, side, tick),
        arrives_last(s, o),
    ensures
        side_ok(s.insert(tail_pos(s, side, o.price), o), side, tick),
{
    lemma_tail_pos(s, side, o.price);
    let p = tail_pos(s, side, o.price);
    let t = s.insert(p, o);
    assert forall|i: int, j: int| 0 <= i < j < t.len() implies as_good(side, #[trigger] t[i].price, #[trigger] t[j].price) && (t[i].price == t[j].price ==> t[i].timestamp <= t[j].timestamp) by {
        if i < p && j < p {
            assert(t[i] == s[i] && t[j] == s[j]);
        } else if i < p && j == p {
            assert(t[i] == s[i]);
        } else if i < p {
            assert(t[i] == s[i] && t[j] == s[j - 1]);
        } else if i == p {
            assert(t[j] == s[j - 1]);
        } else {
            assert(t[i] == s[i - 1] && t[j] == s[j - 1]);
        }
    }
    assert forall|i: int| 0 <= i < t.len() implies resting_ok(#[trigger] t[i], side, tick) by {
        if i < p {
            assert(t[i] == s[i]);
        } else if i > p {
            assert(t[i] == s[i - 1]);
        }
    }
}

proof fn lemma_remove_sorted(s: Seq<Order>, side: OrderSide, tick: u64, k: int)
    requires
        side_ok(s, side, tick),
        0 <= k < s.len(),
    ensures
        side_ok(s.remove(k), side, tick),
        s.remove(k).len() > 0 ==> as_good(side, s[0].price, s.remove(k)[0].price),
{
    let t = s.remove(k);
    assert forall|i: int, j: int| 0 <= i < j < t.len() implies as_good(side, #[trigger] t[i].price, #[trigger] t[j].price) && (t[i].price == t[j].price ==> t[i].timestamp <= t[j].timestamp) by {
        let a = if i < k { i } else { i + 1 };
        let b = if j < k { j } else { j + 1 };
        assert(t[i] == s[a] && t[j] == s[b]);
    }
    assert forall|i: int| 0 <= i < t.len() implies resting_ok(#[trigger] t[i], side, tick) by {
        if i >= k {
            assert(t[i] == s[i + 1]);
        }
    }
    if t.len() > 0 {
        if k == 0 {
            assert(t[0] == s[1]);
        } else {
            assert(t[0] == s[0]);
        }
    }
}

/// A limit order book for one market.
pub struct OrderBookManager {
    bids: Vec<Order>,
    asks: Vec<Order>,
    tick_size: u64,
    min_order_size: u64,
    sequence_number: u64,
}

impl View for OrderBookManager {
    type V = BookModel;

    closed spec fn view(&self) -> BookModel {
        BookModel {
            bids: self.bids@,
            asks: self.asks@,
            sequence_number: self.sequence_number,
            tick_size: self.tick_size,
            min_order_size: self.min_order_size,
        }
    }
}

impl OrderBookManager {
    pub open spec fn wf(&self) -> bool {
        book_ok(self@)
    }

    /// An empty book with the given tick size and minimum order size.
    pub fn new(tick_size: u64, min_order_size: u64) -> (r: OrderBookManager)
        requires
            tick_size > 0,
            min_order_size > 0,
        ensures
            r.wf(),
            r@.bids.len() == 0,
            r@.asks.len() == 0,
            r@.sequence_number == 0,
            r@.tick_size == tick_size,
            r@.min_order_size == min_order_size,
    {
        let r = OrderBookManager { bids: Vec::new(), asks: Vec::new(), tick_size, min_order_size, sequence_number: 0 };
        proof {
            reveal(ids_ok);
        }
        r
    }

    pub fn tick_size(&self) -> (r: u64)
        ensures
            r == self@.tick_size,
    {
        self.tick_size
    }

    pub fn min_order_size(&self) -> (r: u64)
        ensures
            r == self@.min_order_size,
    {
        self.min_order_size
    }

    pub fn sequence_number(&self) -> (r: u64)
        ensures
            r == self@.sequence_number,
    {
        self.sequence_number
    }

    /// Whether every operation can still number its mutations.
    pub fn has_sequence_room(&self) -> (r: bool)
        ensures
            r == self@.has_room(),
    {
        let used = self.bids.len() as u64 as u128 + self.asks.len() as u64 as u128 + 2;
        (self.sequence_number as u128) + used <= u64::MAX as u128
    }

    /// Highest resting bid price.
    pub fn get_best_bid(&self) -> (r: Option<u64>)
        ensures
            r == self@.best(OrderSide::Bid),
    {
        if self.bids.len() > 0 {
            Some(self.bids[0].price)
        } else {
            None
        }
    }

    /// Lowest resting ask price.
    pub fn get_best_ask(&self) -> (r: Option<u64>)
        ensures
            r == self@.best(OrderSide::Ask),
    {
        if self.asks.len() > 0 {
            Some(self.asks[0].price)
        } else {
            None
        }
    }

    fn side_vec(&self, side: OrderSide) -> (r: &Vec<Order>)
        ensures
            r@ == self@.side(side),
    {
        match side {
            OrderSide::Bid => &self.bids,
            OrderSide::Ask => &self.asks,
        }
    }

    /// Whether an order at `price` on `side` would trade at once.
    pub fn would_cross(&self, side: OrderSide, price: u64) -> (r: bool)
        ensures
            r == would_cross(self@, side, price),
    {
        match side {
            OrderSide::Bid => self.asks.len() > 0 && self.asks[0].price <= price,
            OrderSide::Ask => self.bids.len() > 0 && self.bids[0].price >= price,
        }
    }

    /// Whether a resting order has this id.
    pub fn contains_order(&self, order_id: u64) -> (r: bool)
        ensures
            r == self@.contains_id(order_id),
    {
        find_index(&self.bids, order_id).is_some() || find_index(&self.asks, order_id).is_some()
    }

    /// The resting order with this id, if any.
    pub fn get_order(&self, order_id: u64) -> (r: Option<Order>)
        ensures
            r == lookup(self@, order_id),
            r is None <==> !self@.contains_id(order_id),
            r matches Some(o) ==> o.order_id == order_id,
    {
        match find_index(&self.bids, order_id) {
            Some(i) => Some(self.bids[i]),
            None => match find_index(&self.asks, order_id) {
                Some(i) => Some(self.asks[i]),
                None => None,
            },
        }
    }

    /// Takes the order with this id off the book.
    pub fn remove_order(&mut self, order_id: u64) -> (r: Result<Order, ClobError>)
        requires
            old(self).wf(),
            old(self)@.sequence_number < u64::MAX,
        ensures
            final(self).wf(),
            match locate(old(self)@, order_id) {
                None => r matches Err(ClobError::OrderNotFound) && final(self)@ == old(self)@,
                Some((side, k)) => r == Ok::<Order, ClobError>(old(self)@.side(side)[k]) && final(self)@
                    == with_removed(old(self)@, side, k),
            },
    {
        let ghost m = self@;
        let (side, k) = match self.locate(order_id) {
            Some(loc) => loc,
            None => return Err(ClobError::OrderNotFound),
        };
        proof {
            lemma_removed_ok(m, side, k as int);
        }
        let o = match side {
            OrderSide::Bid => self.bids.remove(k),
            OrderSide::Ask => self.asks.remove(k),
        };
        self.sequence_number = self.sequence_number + 1;
        assert(self@ == with_removed(m, side, k as int));
        Ok(o)
    }

    fn locate(&self, order_id: u64) -> (r: Option<(OrderSide, usize)>)
        ensures
            match locate(self@, order_id) {
                None => r is None,
                Some((side, k)) => r matches Some((s2, k2)) && s2 == side && k2 == k && 0 <= k < self@.side(
                    side,
                ).len(),
            },
    {
        match find_index(&self.bids, order_id) {
            Some(i) => Some((OrderSide::Bid, i)),
            None => match find_index(&self.asks, order_id) {
                Some(i) => Some((OrderSide::Ask, i)),
                None => None,
            },
        }
    }

    /// Lowers the remaining quantity of a resting order after a fill; at zero the order
    /// leaves the book.
    pub fn update_order_quantity(&mut self, order_id: u64, new_remaining_quantity: u64) -> (r: Result<(), ClobError>)
        requires
            old(self).wf(),
            old(self)@.sequence_number < u64::MAX,
        ensures
            final(self).wf(),
            match locate(old(self)@, order_id) {
                None => r matches Err(ClobError::OrderNotFound) && final(self)@ == old(self)@,
                Some((side, k)) => if new_remaining_quantity >= old(self)@.side(side)[k].remaining_quantity {
                    r matches Err(ClobError::InvalidQuantity(_)) && final(self)@ == old(self)@
                } else if new_remaining_quantity == 0 {
                    r is Ok && final(self)@ == with_removed(old(self)@, side, k)
                } else {
                    r is Ok && final(self)@ == with_reduced(old(self)@, side, k, new_remaining_quantity)
                },
            },
    {
        let ghost m = self@;
        let (side, k) = match self.locate(order_id) {
            Some(loc) => loc,
            None => return Err(ClobError::OrderNotFound),
        };
        let current = match side {
            OrderSide::Bid => self.bids[k],
            OrderSide::Ask => self.asks[k],
        };
        if new_remaining_quantity >= current.remaining_quantity {
            return Err(ClobError::InvalidQuantity(message("a fill must lower the remaining quantity")));
        }
        if new_remaining_quantity == 0 {
            proof {
                lemma_removed_ok(m, side, k as int);
            }
            match side {
                OrderSide::Bid => {
                    self.bids.remove(k);
                },
                OrderSide::Ask => {
                    self.asks.remove(k);
                },
            }
            self.sequence_number = self.sequence_number + 1;
            assert(self@ == with_removed(m, side, k as int));
            return Ok(());
        }
        let updated = Order { remaining_quantity: new_remaining_quantity, status: OrderStatus::PartiallyFilled, ..current };
        proof {
            lemma_reduced_ok(m, side, k as int, new_remaining_quantity);
        }
        match side {
            OrderSide::Bid => self.bids.set(k, updated),
            OrderSide::Ask => self.asks.set(k, updated),
        }
        self.sequence_number = self.sequence_number + 1;
        assert(self@ == with_reduced(m, side, k as int, new_remaining_quantity));
        Ok(())
    }

    /// Resting bids priced at or above `min_price`, in priority order.
    pub fn get_bids_down_to_price(&self, min_price: u64) -> (r: Vec<Order>)
        ensures
            r@ == self@.bids.filter(|o: Order| o.price >= min_price),
    {
        let mut r: Vec<Order> = Vec::new();
        let mut i: usize = 0;
        while i < self.bids.len()
            invariant
                i <= self.bids@.len(),
                r@ == self.bids@.take(i as int).filter(|o: Order| o.price >= min_price),
            decreases self.bids.len() - i,
        {
            proof {
                reveal(Seq::filter);
                assert(self.bids@.take(i + 1).drop_last() =~= self.bids@.take(i as int));
            }
            if self.bids[i].price >= min_price {
                r.push(self.bids[i]);
            }
            i = i + 1;
        }
        proof {
            assert(self.bids@.take(i as int) =~= self.bids@);
        }
        r
    }

    /// Resting asks priced at or below `max_price`, in priority order.
    pub fn get_asks_up_to_price(&self, max_price: u64) -> (r: Vec<Order>)
        ensures
            r@ == self@.asks.filter(|o: Order| o.price <= max_price),
    {
        let mut r: Vec<Order> = Vec::new();
        let mut i: usize = 0;
        while i < self.asks.len()
            invariant
                i <= self.asks@.len(),
                r@ == self.asks@.take(i as int).filter(|o: Order| o.price <= max_price),
            decreases self.asks.len() - i,
        {
            proof {
                reveal(Seq::filter);
                assert(self.asks@.take(i + 1).drop_last() =~= self.asks@.take(i as int));
            }
            if self.asks[i].price <= max_price {
                r.push(self.asks[i]);
            }
            i = i + 1;
        }
        proof {
            assert(self.asks@.take(i as int) =~= self.asks@);
        }
        r
    }

    /// Resting orders of one owner: bids in priority order, then asks.
    pub fn get_user_orders(&self, user: &AccountId) -> (r: Vec<Order>)
        ensures
            r@ == (self@.bids + self@.asks).filter(|o: Order| o.owner@ == user@),
    {
        let mut r: Vec<Order> = Vec::new();
        collect_owned(&self.bids, user, &mut r);
        collect_owned(&self.asks, user, &mut r);
        proof {
            Seq::filter_distributes_over_add(self@.bids, self@.asks, |o: Order| o.owner@ == user@);
        }
        r
    }

    /// Aggregate of the resting orders at `price` on `side`; none where no order rests.
    pub fn get_price_level(&self, side: OrderSide, price: u64) -> (r: Option<PriceLevel>)
        ensures
            r is None <==> level_count(self@.side(side), price) == 0,
            r matches Some(l) ==> l.price == price && l.quantity == sat(level_sum(self@.side(side), price))
                && l.order_count == sat32(level_count(self@.side(side), price)),
    {
        let v = self.side_vec(side);
        let mut quantity: u64 = 0;
        let mut count: u32 = 0;
        let mut i: usize = 0;
        while i < v.len()
            invariant
                i <= v@.len(),
                level_sum(v@.take(i as int), price) >= 0,
                level_count(v@.take(i as int), price) >= 0,
                quantity == sat(level_sum(v@.take(i as int), price)),
                count == sat32(level_count(v@.take(i as int), price)),
            decreases v.len() - i,
        {
            proof {
                assert(v@.take(i + 1).drop_last() =~= v@.take(i as int));
            }
            if v[i].price == price {
                quantity = quantity.saturating_add(v[i].remaining_quantity);
                count = count.saturating_add(1);
            }
            i = i + 1;
        }
        proof {
            assert(v@.take(i as int) =~= v@);
        }
        if count == 0 {
            None
        } else {
            Some(PriceLevel { price, quantity, order_count: count })
        }
    }

    /// Aggregated depth of both sides with the current sequence number, at `timestamp`.
    pub fn get_snapshot(&self, timestamp: i64) -> (r: OrderBookSnapshot)
        ensures
            (r.bids@, r.asks@, r.sequence_number, r.timestamp) == snapshot_of(self@, timestamp),
    {
        OrderBookSnapshot {
            bids: depth_of(&self.bids),
            asks: depth_of(&self.asks),
            sequence_number: self.sequence_number,
            timestamp,
        }
    }

    /// Summary figures of the book.
    pub fn get_market_stats(&self) -> (r: MarketStats)
        requires
            self.wf(),
        ensures
            r.best_bid == self@.best(OrderSide::Bid),
            r.best_ask == self@.best(OrderSide::Ask),
            r.spread == match (self@.best(OrderSide::Bid), self@.best(OrderSide::Ask)) {
                (Some(b), Some(a)) => Some((a - b) as u64),
                _ => None::<u64>,
            },
            r.total_bid_orders == self@.bids.len(),
            r.total_ask_orders == self@.asks.len(),
            r.total_bid_quantity == sat(side_total(self@.bids)),
            r.total_ask_quantity == sat(side_total(self@.asks)),
            r.price_levels_count == sat((depth(self@.bids).len() + depth(self@.asks).len()) as int),
    {
        let best_bid = self.get_best_bid();
        let best_ask = self.get_best_ask();
        let spread = match (best_bid, best_ask) {
            (Some(b), Some(a)) => Some(a - b),
            _ => None,
        };
        let bid_depth = depth_of(&self.bids);
        let ask_depth = depth_of(&self.asks);
        proof {
            lemma_depth_len(self@.bids);
            lemma_depth_len(self@.asks);
        }
        MarketStats {
            best_bid,
            best_ask,
            spread,
            total_bid_orders: self.bids.len() as u64,
            total_ask_orders: self.asks.len() as u64,
            total_bid_quantity: total_of(&self.bids),
            total_ask_quantity: total_of(&self.asks),
            price_levels_count: (bid_depth.len() as u64).saturating_add(ask_depth.len() as u64),
        }
    }

    /// Matches `taker` against the other side in price-time priority, without changing
    /// the book.
    pub fn match_against(&self, taker: &Order, now: i64) -> (r: MatchRun)
        requires
            self.wf(),
        ensures
            r.agrees(match_result(*taker, self@.side(opposite(taker.side)), now)),
            !can_step(self@.side(opposite(taker.side)), match_result(*taker, self@.side(opposite(taker.side)), now)),
            good(*taker, self@.side(opposite(taker.side)), now, match_result(*taker, self@.side(opposite(taker.side)), now)),
    {
        let makers = self.side_vec(taker.side.opposite());
        let ghost t = *taker;
        let ghost mut gs: MatchState = init_state(t);
        proof {
            lemma_init_good(t, makers@, now);
            assert forall|k: int| 0 <= k < makers@.len() implies (#[trigger] makers@[k]).remaining_quantity > 0 by {
                assert(resting_ok(makers@[k], opposite(taker.side), self@.tick_size));
            }
        }
        let mut remaining = taker.remaining_quantity;
        let mut stopped = false;
        let mut cancelled = false;
        let mut i: usize = 0;
        let mut head: Option<Order> = None;
        let mut trades: Vec<TradeExecution> = Vec::new();
        let mut removed: Vec<Order> = Vec::new();
        while !stopped && i < makers.len() && remaining > 0
            invariant
                t == *taker,
                all_positive(makers@),
                good(t, makers@, now, gs),
                run_match(t, makers@, now, gs) == match_result(t, makers@, now),
                remaining == gs.remaining,
                stopped == gs.stopped,
                cancelled == gs.taker_cancelled,
                i == gs.next,
                head == gs.head,
                trades@ == gs.trades,
                removed@ == gs.removed,
            decreases (makers@.len() - i) * 2 + if stopped { 0int } else { 1int },
        {
            let m = makers[i];
            let ghost s2 = match_step(t, makers@, now, gs);
            if !crosses_price(taker, m.price) {
                stopped = true;
            } else if same_account(&m.owner, &taker.owner) {
                let drop_maker = match taker.self_trade_behavior {
                    SelfTradeBehavior::DecrementAndCancel => remaining >= m.remaining_quantity,
                    SelfTradeBehavior::CancelProvide => true,
                    SelfTradeBehavior::CancelTake => false,
                    SelfTradeBehavior::CancelBoth => true,
                };
                let stop_taker = match taker.self_trade_behavior {
                    SelfTradeBehavior::DecrementAndCancel => remaining <= m.remaining_quantity,
                    SelfTradeBehavior::CancelProvide => false,
                    SelfTradeBehavior::CancelTake => true,
                    SelfTradeBehavior::CancelBoth => true,
                };
                if drop_maker {
                    removed.push(Order { status: OrderStatus::Cancelled, ..m });
                    i = i + 1;
                }
                if stop_taker {
                    stopped = true;
                    cancelled = true;
                }
            } else if remaining >= m.remaining_quantity {
                trades.push(
                    TradeExecution {
                        maker_order_id: m.order_id,
                        taker_order_id: taker.order_id,
                        maker_owner: m.owner,
                        taker_owner: taker.owner,
                        price: m.price,
                        quantity: m.remaining_quantity,
                        timestamp: now,
                        maker_side: m.side,
                    },
                );
                removed.push(Order { remaining_quantity: 0, status: OrderStatus::Filled, ..m });
                remaining = remaining - m.remaining_quantity;
                stopped = remaining == 0;
                i = i + 1;
            } else {
                trades.push(
                    TradeExecution {
                        maker_order_id: m.order_id,
                        taker_order_id: taker.order_id,
                        maker_owner: m.owner,
                        taker_owner: taker.owner,
                        price: m.price,
                        quantity: remaining,
                        timestamp: now,
                        maker_side: m.side,
                    },
                );
                head = Some(
                    Order {
                        remaining_quantity: m.remaining_quantity - remaining,
                        status: OrderStatus::PartiallyFilled,
                        ..m
                    },
                );
                remaining = 0;
                stopped = true;
                i = i + 1;
            }
            proof {
                lemma_step_good(t, makers@, now, gs);
                gs = s2;
            }
        }
        MatchRun { remaining, taker_cancelled: cancelled, next: i, head, trades, removed }
    }

    /// Applies a matching run of `taker` to the other side: the makers reached leave it,
    /// except a partially filled last one.
    pub fn apply_match(&mut self, taker: &Order, now: i64, run: &MatchRun)
        requires
            old(self).wf(),
            old(self)@.sequence_number + old(self)@.side(opposite(taker.side)).len() <= u64::MAX,
            run.agrees(match_result(*taker, old(self)@.side(opposite(taker.side)), now)),
            good(*taker, old(self)@.side(opposite(taker.side)), now, match_result(*taker, old(self)@.side(opposite(taker.side)), now)),
        ensures
            final(self).wf(),
            final(self)@ == applied(old(self)@, taker.side, match_result(*taker, old(self)@.side(opposite(taker.side)), now)),
    {
        let ghost m = self@;
        let ghost st = match_result(*taker, m.side(opposite(taker.side)), now);
        let opp = taker.side.opposite();
        let mut rest: Vec<Order> = Vec::new();
        let mut events: u64 = 0;
        match run.head {
            Some(h) => {
                rest.push(h);
                events = 1;
            },
            None => {},
        }
        let ghost pre = rest@;
        let makers = self.side_vec(opp);
        let mut j: usize = run.next;
        while j < makers.len()
            invariant
                run.next <= j <= makers@.len(),
                rest@ == pre + makers@.subrange(run.next as int, j as int),
            decreases makers.len() - j,
        {
            rest.push(makers[j]);
            j = j + 1;
            proof {
                assert(rest@ =~= pre + makers@.subrange(run.next as int, j as int));
            }
        }
        proof {
            assert(rest@ =~= rest_of(st, m.side(opp)));
            lemma_applied_ok(m, *taker, now, st);
        }
        events = events + run.removed.len() as u64;
        match opp {
            OrderSide::Bid => self.bids = rest,
            OrderSide::Ask => self.asks = rest,
        }
        self.sequence_number = self.sequence_number + events;
        assert(self@ == applied(m, taker.side, st));
    }

    /// Numbers the next mutation.
    pub fn advance_sequence(&mut self) -> (r: u64)
        requires
            old(self)@.sequence_number < u64::MAX,
        ensures
            r == old(self)@.sequence_number + 1,
            final(self)@ == (BookModel { sequence_number: r, ..old(self)@ }),
            old(self).wf() ==> final(self).wf(),
    {
        self.sequence_number = self.sequence_number + 1;
        self.sequence_number
    }

    /// Whether an order of `owner` with this client id rests on the book.
    pub fn has_client_order(&self, owner: &AccountId, client_order_id: u64) -> (r: bool)
        ensures
            r == (has_client_id(self@.bids, *owner, client_order_id) || has_client_id(self@.asks, *owner, client_order_id)),
    {
        side_has_client_order(&self.bids, owner, client_order_id) || side_has_client_order(&self.asks, owner, client_order_id)
    }

    /// Gives a resting order a new quantity and remaining quantity in place; it keeps its
    /// priority.
    pub fn amend_order(&mut self, order_id: u64, quantity: u64, remaining: u64) -> (r: Result<Order, ClobError>)
        requires
            old(self).wf(),
            old(self)@.sequence_number < u64::MAX,
        ensures
            final(self).wf(),
            match locate(old(self)@, order_id) {
                None => r matches Err(ClobError::OrderNotFound) && final(self)@ == old(self)@,
                Some((side, k)) => if 0 < remaining <= quantity {
                    final(self)@ == with_amended(old(self)@, side, k, quantity, remaining) && r == Ok::<
                        Order,
                        ClobError,
                    >(with_amended(old(self)@, side, k, quantity, remaining).side(side)[k])
                } else {
                    r matches Err(ClobError::InvalidQuantity(_)) && final(self)@ == old(self)@
                },
            },
    {
        let ghost m = self@;
        let (side, k) = match self.locate(order_id) {
            Some(loc) => loc,
            None => return Err(ClobError::OrderNotFound),
        };
        if remaining == 0 || remaining > quantity {
            return Err(ClobError::InvalidQuantity(message("remaining quantity must be positive and at most the quantity")));
        }
        let current = match side {
            OrderSide::Bid => self.bids[k],
            OrderSide::Ask => self.asks[k],
        };
        let status = if remaining == quantity {
            OrderStatus::Open
        } else {
            OrderStatus::PartiallyFilled
        };
        let updated = Order { quantity, remaining_quantity: remaining, status, ..current };
        proof {
            lemma_amended_ok(m, side, k as int, quantity, remaining);
        }
        match side {
            OrderSide::Bid => self.bids.set(k, updated),
            OrderSide::Ask => self.asks.set(k, updated),
        }
        self.sequence_number = self.sequence_number + 1;
        assert(self@ == with_amended(m, side, k as int, quantity, remaining));
        Ok(updated)
    }

    /// Takes every good-till-time order whose expiry is at or before `now` off the book and
    /// returns them, marked expired: bids first, each side in priority order.
    pub fn expire_orders(&mut self, now: i64) -> (r: Vec<Order>)
        requires
            old(self).wf(),
            old(self)@.has_room(),
        ensures
            final(self).wf(),
            final(self)@.bids == old(self)@.bids.filter(|o: Order| !expired(o, now)),
            final(self)@.asks == old(self)@.asks.filter(|o: Order| !expired(o, now)),
            r@ == (old(self)@.bids + old(self)@.asks).filter(|o: Order| expired(o, now)).map_values(
                |o: Order| as_expired(o),
            ),
            final(self)@.sequence_number == old(self)@.sequence_number + r@.len(),
            forall|i: int| 0 <= i < final(self)@.bids.len() ==> !expired(#[trigger] final(self)@.bids[i], now),
            forall|i: int| 0 <= i < final(self)@.asks.len() ==> !expired(#[trigger] final(self)@.asks[i], now),
            final(self)@.tick_size == old(self)@.tick_size,
            final(self)@.min_order_size == old(self)@.min_order_size,
    {
        let ghost m = self@;
        let mut gone: Vec<Order> = Vec::new();
        let kept_bids = split_expired(&self.bids, now, &mut gone);
        let ghost mb = m.with_side(OrderSide::Bid, kept_bids.0@);
        proof {
            lemma_sub_side_ok(m, OrderSide::Bid, kept_bids.0@, kept_bids.1@);
        }
        let kept_asks = split_expired(&self.asks, now, &mut gone);
        proof {
            lemma_sub_side_ok(mb, OrderSide::Ask, kept_asks.0@, kept_asks.1@);
            Seq::filter_distributes_over_add(m.bids, m.asks, |o: Order| expired(o, now));
            let e = |o: Order| as_expired(o);
            let a = m.bids.filter(|o: Order| expired(o, now));
            let b = m.asks.filter(|o: Order| expired(o, now));
            assert((a + b).map_values(e) =~= a.map_values(e) + b.map_values(e));
            a.lemma_filter_len(|o: Order| expired(o, now));
            b.lemma_filter_len(|o: Order| expired(o, now));
            m.bids.filter_lemma(|o: Order| expired(o, now));
            m.asks.filter_lemma(|o: Order| expired(o, now));
            m.bids.filter_lemma(|o: Order| !expired(o, now));
            m.asks.filter_lemma(|o: Order| !expired(o, now));
        }
        self.bids = kept_bids.0;
        self.asks = kept_asks.0;
        let n = gone.len() as u64;
        proof {
            assert(gone@.len() <= m.bids.len() + m.asks.len());
        }
        self.sequence_number = self.sequence_number + n;
        gone
    }

    /// A book holding exactly the given resting orders (each side in priority order) and
    /// sequence number, as a journal describes it; refused unless they form a well-formed book.
    pub fn restore(
        tick_size: u64,
        min_order_size: u64,
        bids: &Vec<Order>,
        asks: &Vec<Order>,
        sequence_number: u64,
    ) -> (r: Result<OrderBookManager, ClobError>)
        ensures
            r is Ok <==> book_ok(BookModel { bids: bids@, asks: asks@, sequence_number, tick_size, min_order_size }),
            r matches Ok(b) ==> b@ == (BookModel { bids: bids@, asks: asks@, sequence_number, tick_size, min_order_size }),
    {
        let ghost m = BookModel { bids: bids@, asks: asks@, sequence_number, tick_size, min_order_size };
        proof {
            reveal(ids_ok);
        }
        if tick_size == 0 || min_order_size == 0 {
            return Err(ClobError::SerializationError(message("the journal does not describe a valid book")));
        }
        let empty: Vec<Order> = Vec::new();
        let kept_bids = match check_side(bids, OrderSide::Bid, tick_size, &empty) {
            Some(v) => v,
            None => return Err(ClobError::SerializationError(message("the journal does not describe a valid book"))),
        };
        let kept_asks = match check_side(asks, OrderSide::Ask, tick_size, &kept_bids) {
            Some(v) => v,
            None => {
                proof {
                    if book_ok(m) {
                        lemma_disjoint_sym(m.bids, m.asks);
                    }
                }
                return Err(ClobError::SerializationError(message("the journal does not describe a valid book")));
            },
        };
        proof {
            lemma_disjoint_sym(asks@, bids@);
        }
        if kept_bids.len() > 0 && kept_asks.len() > 0 && kept_bids[0].price >= kept_asks[0].price {
            return Err(ClobError::SerializationError(message("the journal does not describe a valid book")));
        }
        Ok(OrderBookManager { bids: kept_bids, asks: kept_asks, tick_size, min_order_size, sequence_number })
    }

    /// Timestamp of the last order resting at `price` on `side`, if any.
    pub fn latest_timestamp_at(&self, side: OrderSide, price: u64) -> (r: Option<i64>)
        requires
            self.wf(),
        ensures
            r == latest_at(self@.side(side), side, price),
    {
        let v = self.side_vec(side);
        let p = tail_position(v, side, price);
        proof {
            lemma_tail_pos(v@, side, price);
        }
        if p > 0 && v[p - 1].price == price {
            Some(v[p - 1].timestamp)
        } else {
            None
        }
    }

    /// Rests `order` at the tail of its price on its side.
    pub fn add_order(&mut self, order: Order) -> (r: Result<(), ClobError>)
        requires
            old(self).wf(),
            old(self)@.sequence_number < u64::MAX,
        ensures
            final(self).wf(),
            match add_refusal(old(self)@, order) {
                Some(e) => r matches Err(e2) && same_error(e, e2) && final(self)@ == old(self)@,
                None => r is Ok && final(self)@ == with_added(old(self)@, order),
            },
    {
        if order.price % self.tick_size != 0 {
            return Err(ClobError::PriceNotAlignedToTickSize);
        }
        if order.quantity < self.min_order_size {
            return Err(ClobError::OrderSizeBelowMinimum);
        }
        if order.remaining_quantity == 0 || order.remaining_quantity > order.quantity {
            return Err(ClobError::InvalidQuantity(message("remaining quantity must be positive and at most the quantity")));
        }
        if order.price == 0 || self.would_cross(order.side, order.price) {
            return Err(ClobError::InvalidPrice(message("a resting order needs a positive price that does not cross")));
        }
        if self.contains_order(order.order_id) {
            return Err(ClobError::DuplicateOrderId);
        }
        proof {
            lemma_arrives_last(self@.side(order.side), order.side, order);
        }
        match self.latest_timestamp_at(order.side, order.price) {
            Some(t) => {
                if t > order.timestamp {
                    return Err(ClobError::TimestampOutOfOrder);
                }
            },
            None => {},
        }
        let mut o = order;
        o.status = if o.remaining_quantity == o.quantity {
            OrderStatus::Open
        } else {
            OrderStatus::PartiallyFilled
        };
        assert(o == normalized(order));
        let ghost m = self@;
        proof {
            lemma_tail_pos(m.side(o.side), o.side, o.price);
            lemma_insert_sorted(m.side(o.side), o.side, m.tick_size, o);
            lemma_side_disjoint(m, o.side);
            lemma_ids_insert(m.side(o.side), tail_pos(m.side(o.side), o.side, o.price), o, m.side(opposite(o.side)));
            lemma_ids_with_side(m, o.side, m.side(o.side).insert(tail_pos(m.side(o.side), o.side, o.price), o));
        }
        match o.side {
            OrderSide::Bid => {
                let pos = tail_position(&self.bids, OrderSide::Bid, o.price);
                self.bids.insert(pos, o);
            },
            OrderSide::Ask => {
                let pos = tail_position(&self.asks, OrderSide::Ask, o.price);
                self.asks.insert(pos, o);
            },
        }
        self.sequence_number = self.sequence_number + 1;
        proof {
            let p = tail_pos(m.side(o.side), o.side, o.price);
            let t = m.side(o.side).insert(p, o);
            assert(self@ == with_added(m, order));
            if p == 0 {
                assert(t[0] == o);
            } else {
                assert(t[0] == m.side(o.side)[0]);
            }
        }
        Ok(())
    }
}

/// Outcome of matching a taker against the book, before it is applied.
pub struct MatchRun {
    /// What is left of the taker.
    pub remaining: u64,
    /// Self-trade prevention cancelled the taker.
    pub taker_cancelled: bool,
    /// Number of makers at the front of the other side that were reached.
    pub next: usize,
    /// The last maker reached, partially filled, which stays on the book.
    pub head: Option<Order>,
    /// Executions in matching order.
    pub trades: Vec<TradeExecution>,
    /// Makers taken off the book, filled or cancelled.
    pub removed: Vec<Order>,
}

impl MatchRun {
    pub open spec fn agrees(&self, st: MatchState) -> bool {
        &&& self.remaining == st.remaining
        &&& self.taker_cancelled == st.taker_cancelled
        &&& self.next == st.next
        &&& self.head == st.head
        &&& self.trades@ == st.trades
        &&& self.removed@ == st.removed
    }
}

fn crosses_price(taker: &Order, maker_price: u64) -> (r: bool)
    ensures
        r == crosses(*taker, maker_price),
{
    match taker.order_type {
        OrderType::Market => true,
        _ => match taker.side {
            OrderSide::Bid => maker_price <= taker.price,
            OrderSide::Ask => maker_price >= taker.price,
        },
    }
}

/// Summary figures of a book.
#[derive(Debug, Clone, Copy)]
pub struct MarketStats {
    pub best_bid: Option<u64>,
    pub best_ask: Option<u64>,
    pub spread: Option<u64>,
    pub total_bid_orders: u64,
    pub total_ask_orders: u64,
    pub total_bid_quantity: u64,
    pub total_ask_quantity: u64,
    pub price_levels_count: u64,
}

proof fn lemma_depth_len(s: Seq<Order>)
    ensures
        depth(s).len() <= s.len(),
    decreases s.len(),
{
    if s.len() > 0 {
        lemma_depth_len(s.drop_last());
    }
}

/// Depth of a side.
fn depth_of(v: &Vec<Order>) -> (r: Vec<(u64, u64)>)
    ensures
        r@ == depth(v@),
{
    let mut r: Vec<(u64, u64)> = Vec::new();
    let mut i: usize = 0;
    while i < v.len()
        invariant
            i <= v@.len(),
            r@ == depth(v@.take(i as int)),
        decreases v.len() - i,
    {
        proof {
            assert(v@.take(i + 1).drop_last() =~= v@.take(i as int));
        }
        let o = v[i];
        let n = r.len();
        if n > 0 && r[n - 1].0 == o.price {
            let q = r[n - 1].1;
            r.set(n - 1, (o.price, q.saturating_add(o.remaining_quantity)));
        } else {
            r.push((o.price, o.remaining_quantity));
        }
        i = i + 1;
    }
    proof {
        assert(v@.take(i as int) =~= v@);
    }
    r
}

/// Sum of the remaining quantities of a side, saturating at `u64::MAX`.
fn total_of(v: &Vec<Order>) -> (r: u64)
    ensures
        r == sat(side_total(v@)),
{
    let mut total: u64 = 0;
    let mut i: usize = 0;
    while i < v.len()
        invariant
            i <= v@.len(),
            side_total(v@.take(i as int)) >= 0,
            total == sat(side_total(v@.take(i as int))),
        decreases v.len() - i,
    {
        proof {
            assert(v@.take(i + 1).drop_last() =~= v@.take(i as int));
        }
        total = total.saturating_add(v[i].remaining_quantity);
        i = i + 1;
    }
    proof {
        assert(v@.take(i as int) =~= v@);
    }
    total
}

/// Splits a side into the orders that stay (with their positions) and, appended to `gone`
/// and marked expired, those whose time has come.
fn split_expired(v: &Vec<Order>, now: i64, gone: &mut Vec<Order>) -> (r: (Vec<Order>, Ghost<spec_fn(int) -> int>))
    ensures
        r.0@ == v@.filter(|o: Order| !expired(o, now)),
        final(gone)@ == old(gone)@ + v@.filter(|o: Order| expired(o, now)).map_values(|o: Order| as_expired(o)),
        forall|i: int| 0 <= i < r.0@.len() ==> 0 <= #[trigger] (r.1@)(i) < v@.len() && r.0@[i] == v@[(r.1@)(i)],
        forall|i: int, j: int| 0 <= i < j < r.0@.len() ==> #[trigger] (r.1@)(i) < #[trigger] (r.1@)(j),
{
    let ghost start = gone@;
    let mut kept: Vec<Order> = Vec::new();
    let ghost mut idx: Seq<int> = Seq::empty();
    let mut i: usize = 0;
    while i < v.len()
        invariant
            i <= v@.len(),
            kept@ == v@.take(i as int).filter(|o: Order| !expired(o, now)),
            gone@ == start + v@.take(i as int).filter(|o: Order| expired(o, now)).map_values(|o: Order| as_expired(o)),
            idx.len() == kept@.len(),
            forall|k: int| 0 <= k < idx.len() ==> 0 <= #[trigger] idx[k] < i && kept@[k] == v@[idx[k]],
            forall|k: int, l: int| 0 <= k < l < idx.len() ==> #[trigger] idx[k] < #[trigger] idx[l],
        decreases v.len() - i,
    {
        proof {
            reveal(Seq::filter);
            assert(v@.take(i + 1).drop_last() =~= v@.take(i as int));
        }
        let o = v[i];
        let is_expired = o.time_in_force == TimeInForce::GoodTillTime && o.expiry_timestamp <= now;
        if is_expired {
            gone.push(Order { status: OrderStatus::Expired, ..o });
            proof {
                let ex = v@.take(i as int).filter(|o: Order| expired(o, now));
                assert(v@.take(i + 1).filter(|o: Order| expired(o, now)) == ex.push(o));
                assert(ex.push(o).map_values(|o: Order| as_expired(o)) =~= ex.map_values(|o: Order| as_expired(o)).push(
                    as_expired(o),
                ));
                assert(gone@ =~= start + v@.take(i + 1).filter(|o: Order| expired(o, now)).map_values(
                    |o: Order| as_expired(o),
                ));
            }
        } else {
            kept.push(o);
            proof {
                idx = idx.push(i as int);
            }
        }
        i = i + 1;
    }
    proof {
        assert(v@.take(i as int) =~= v@);
    }
    let ghost f = |k: int| idx[k];
    (kept, Ghost(f))
}

/// Appending an order that follows the last one keeps a side in priority order.
proof fn lemma_push_sorted(s: Seq<Order>, o: Order, side: OrderSide, tick: u64)
    requires
        side_ok(s, side, tick),
        resting_ok(o, side, tick),
        s.len() > 0 ==> as_good(side, s.last().price, o.price) && (s.last().price == o.price ==> s.last().timestamp
            <= o.timestamp),
    ensures
        side_ok(s.push(o), side, tick),
{
    let t = s.push(o);
    assert forall|a: int, b: int| 0 <= a < b < t.len() implies as_good(side, #[trigger] t[a].price, #[trigger] t[b].price)
        && (t[a].price == t[b].price ==> t[a].timestamp <= t[b].timestamp) by {
        if b == t.len() - 1 && a < b - 1 {
            assert(t[a] == s[a] && t[b - 1] == s[b - 1]);
            assert(as_good(side, s[a].price, s[b - 1].price));
        } else if b == t.len() - 1 {
            assert(t[a] == s[a]);
        } else {
            assert(t[a] == s[a] && t[b] == s[b]);
        }
    }
    assert forall|a: int| 0 <= a < t.len() implies resting_ok(#[trigger] t[a], side, tick) by {
        if a < s.len() {
            assert(t[a] == s[a]);
        }
    }
}

/// A copy of `v` if it is a well-formed side whose ids are apart from those of `other`.
fn check_side(v: &Vec<Order>, side: OrderSide, tick: u64, other: &Vec<Order>) -> (r: Option<Vec<Order>>)
    requires
        tick > 0,
    ensures
        r is Some <==> (side_ok(v@, side, tick) && unique_ids(v@) && disjoint_ids(v@, other@)),
        r matches Some(c) ==> c@ == v@,
{
    let mut out: Vec<Order> = Vec::new();
    let mut i: usize = 0;
    while i < v.len()
        invariant
            tick > 0,
            i <= v@.len(),
            out@ == v@.take(i as int),
            side_ok(out@, side, tick),
            unique_ids(out@),
            disjoint_ids(out@, other@),
        decreases v.len() - i,
    {
        let o = v[i];
        let status = if o.remaining_quantity == o.quantity {
            OrderStatus::Open
        } else {
            OrderStatus::PartiallyFilled
        };
        let fits = o.side == side && o.price > 0 && o.price % tick == 0 && o.remaining_quantity > 0
            && o.remaining_quantity <= o.quantity && o.status == status;
        if !fits {
            assert(!resting_ok(v@[i as int], side, tick));
            return None;
        }
        if i > 0 {
            let before = v[i - 1].price;
            let ordered = match side {
                OrderSide::Bid => before >= o.price,
                OrderSide::Ask => before <= o.price,
            };
            if !ordered {
                assert(!as_good(side, v@[i - 1].price, v@[i as int].price));
                return None;
            }
            if before == o.price && v[i - 1].timestamp > o.timestamp {
                assert(v@[i - 1].price == v@[i as int].price && v@[i - 1].timestamp > v@[i as int].timestamp);
                return None;
            }
        }
        match find_index(&out, o.order_id) {
            Some(j) => {
                assert(v@[j as int].order_id == v@[i as int].order_id);
                return None;
            },
            None => {},
        }
        match find_index(other, o.order_id) {
            Some(j) => {
                assert(v@[i as int].order_id == other@[j as int].order_id);
                return None;
            },
            None => {},
        }
        proof {
            let t = out@.push(o);
            lemma_push_sorted(out@, o, side, tick);
            assert forall|a: int, b: int| 0 <= a < t.len() && 0 <= b < t.len() && a != b implies (#[trigger] t[a]).order_id
                != (#[trigger] t[b]).order_id by {
                if a == t.len() - 1 {
                    assert(out@[b] == t[b]);
                } else if b == t.len() - 1 {
                    assert(out@[a] == t[a]);
                }
            }
            assert forall|a: int, b: int| 0 <= a < t.len() && 0 <= b < other@.len() implies (#[trigger] t[a]).order_id
                != (#[trigger] other@[b]).order_id by {
                if a < t.len() - 1 {
                    assert(out@[a] == t[a]);
                }
            }
        }
        out.push(o);
        i = i + 1;
        proof {
            assert(out@ =~= v@.take(i as int));
        }
    }
    proof {
        assert(v@.take(i as int) =~= v@);
    }
    Some(out)
}

/// Appends to `out` the orders of `v` that `user` owns.
fn collect_owned(v: &Vec<Order>, user: &AccountId, out: &mut Vec<Order>)
    ensures
        final(out)@ == old(out)@ + v@.filter(|o: Order| o.owner@ == user@),
{
    let ghost start = out@;
    let mut i: usize = 0;
    while i < v.len()
        invariant
            i <= v@.len(),
            out@ == start + v@.take(i as int).filter(|o: Order| o.owner@ == user@),
        decreases v.len() - i,
    {
        proof {
            reveal(Seq::filter);
            assert(v@.take(i + 1).drop_last() =~= v@.take(i as int));
        }
        if same_account(&v[i].owner, user) {
            out.push(v[i]);
            proof {
                assert(out@ =~= start + v@.take(i + 1).filter(|o: Order| o.owner@ == user@));
            }
        }
        i = i + 1;
    }
    proof {
        assert(v@.take(i as int) =~= v@);
    }
}

fn side_has_client_order(v: &Vec<Order>, owner: &AccountId, client_order_id: u64) -> (r: bool)
    ensures
        r == has_client_id(v@, *owner, client_order_id),
{
    let mut i: usize = 0;
    while i < v.len()
        invariant
            i <= v@.len(),
            forall|j: int| 0 <= j < i ==> !((#[trigger] v@[j]).owner@ == owner@ && v@[j].client_order_id == client_order_id),
        decreases v.len() - i,
    {
        if v[i].client_order_id == client_order_id && same_account(&v[i].owner, owner) {
            return true;
        }
        i = i + 1;
    }
    false
}

/// Index of the first order with this id.
pub fn find_index(v: &Vec<Order>, order_id: u64) -> (r: Option<usize>)
    ensures
        r is None <==> !has_id(v@, order_id),
        r matches Some(i) ==> i < v@.len() && v@[i as int].order_id == order_id && i == first_index(v@, order_id),
{
    let mut i: usize = 0;
    while i < v.len()
        invariant
            i <= v.len(),
            forall|j: int| 0 <= j < i ==> (#[trigger] v@[j]).order_id != order_id,
        decreases v.len() - i,
    {
        if v[i].order_id == order_id {
            proof {
                lemma_first_index(v@, order_id, i as int);
            }
            return Some(i);
        }
        i = i + 1;
    }
    None
}

pub proof fn lemma_removed_ok(m: BookModel, side: OrderSide, k: int)
    requires
        book_ok(m),
        0 <= k < m.side(side).len(),
    ensures
        book_ok(with_removed(m, side, k)),
{
    lemma_remove_sorted(m.side(side), side, m.tick_size, k);
    let s = m.side(side);
    let t = s.remove(k);
    lemma_side_disjoint(m, side);
    let f = |i: int| if i < k { i } else { i + 1 };
    assert forall|i: int| 0 <= i < t.len() implies 0 <= #[trigger] f(i) < s.len() && t[i].order_id == s[f(i)].order_id by {
    }
    lemma_ids_sub(s, t, f, m.side(opposite(side)));
    lemma_ids_with_side(m, side, t);
}

proof fn lemma_reduced_ok(m: BookModel, side: OrderSide, k: int, remaining: u64)
    requires
        book_ok(m),
        0 <= k < m.side(side).len(),
        0 < remaining < m.side(side)[k].remaining_quantity,
    ensures
        book_ok(with_reduced(m, side, k, remaining)),
{
    let s = m.side(side);
    let o = s[k];
    let t = s.update(k, Order { remaining_quantity: remaining, status: OrderStatus::PartiallyFilled, ..o });
    assert forall|i: int, j: int| 0 <= i < j < t.len() implies as_good(side, #[trigger] t[i].price, #[trigger] t[j].price) && (t[i].price == t[j].price ==> t[i].timestamp <= t[j].timestamp) by {
        assert(s[i].price == t[i].price && s[j].price == t[j].price);
    }
    assert forall|i: int| 0 <= i < t.len() implies resting_ok(#[trigger] t[i], side, m.tick_size) by {
        if i != k {
            assert(t[i] == s[i]);
        }
    }
    assert(t[0].price == s[0].price);
    lemma_side_disjoint(m, side);
    let f = |i: int| i;
    lemma_ids_sub(s, t, f, m.side(opposite(side)));
    lemma_ids_with_side(m, side, t);
}

proof fn lemma_amended_ok(m: BookModel, side: OrderSide, k: int, quantity: u64, remaining: u64)
    requires
        book_ok(m),
        0 <= k < m.side(side).len(),
        0 < remaining <= quantity,
    ensures
        book_ok(with_amended(m, side, k, quantity, remaining)),
{
    let s0 = m.side(side);
    let o = s0[k];
    let t = s0.update(k, Order { quantity, remaining_quantity: remaining, status: status_for(remaining, quantity), ..o });
    assert forall|i: int, j: int| 0 <= i < j < t.len() implies as_good(side, #[trigger] t[i].price, #[trigger] t[j].price) && (t[i].price == t[j].price ==> t[i].timestamp <= t[j].timestamp) by {
        assert(s0[i].price == t[i].price && s0[j].price == t[j].price);
        assert(as_good(side, s0[i].price, s0[j].price));
    }
    assert forall|i: int| 0 <= i < t.len() implies resting_ok(#[trigger] t[i], side, m.tick_size) by {
        assert(resting_ok(s0[i], side, m.tick_size));
        if i != k {
            assert(t[i] == s0[i]);
        }
    }
    assert(t[0].price == s0[0].price);
    lemma_side_disjoint(m, side);
    let f = |i: int| i;
    lemma_ids_sub(s0, t, f, m.side(opposite(side)));
    lemma_ids_with_side(m, side, t);
}

/// Where `locate` points is an order with that id, and it is what `lookup` gives.
pub proof fn lemma_locate(m: BookModel, id: u64)
    ensures
        locate(m, id) matches Some((side, k)) ==> 0 <= k < m.side(side).len() && m.side(side)[k].order_id == id
            && lookup(m, id) == Some(m.side(side)[k]) && (book_ok(m) ==> resting_ok(m.side(side)[k], side, m.tick_size)),
        locate(m, id) is None ==> lookup(m, id) is None,
{
    if let Some((side, k)) = locate(m, id) {
        lemma_first_exists(m.side(side), id);
    }
}

proof fn first_witness(s: Seq<Order>, id: u64) -> (i: int)
    requires
        has_id(s, id),
    ensures
        0 <= i < s.len(),
        s[i].order_id == id,
        forall|j: int| 0 <= j < i ==> (#[trigger] s[j]).order_id != id,
    decreases s.len(),
{
    let t = s.drop_last();
    if has_id(t, id) {
        let i = first_witness(t, id);
        assert forall|j: int| 0 <= j < i implies (#[trigger] s[j]).order_id != id by {
            assert(s[j] == t[j]);
        }
        assert(s[i] == t[i]);
        i
    } else {
        let w = choose|w: int| 0 <= w < s.len() && (#[trigger] s[w]).order_id == id;
        if w < s.len() - 1 {
            assert(t[w] == s[w]);
        }
        assert forall|j: int| 0 <= j < s.len() - 1 implies (#[trigger] s[j]).order_id != id by {
            assert(s[j] == t[j]);
        }
        s.len() - 1
    }
}

proof fn lemma_first_exists(s: Seq<Order>, id: u64)
    requires
        has_id(s, id),
    ensures
        0 <= first_index(s, id) < s.len(),
        s[first_index(s, id)].order_id == id,
{
    let i = first_witness(s, id);
    lemma_first_index(s, id, i);
}

proof fn lemma_first_index(s: Seq<Order>, id: u64, i: int)
    requires
        0 <= i < s.len(),
        s[i].order_id == id,
        forall|j: int| 0 <= j < i ==> (#[trigger] s[j]).order_id != id,
    ensures
        first_index(s, id) == i,
{
    let c = first_index(s, id);
    assert(0 <= c < s.len() && s[c].order_id == id);
    if c < i {
        assert(s[c].order_id != id);
    } else if c > i {
        assert(s[i].order_id != id);
    }
}

/// Position at which a new order at `price` joins `v`.
pub fn tail_position(v: &Vec<Order>, side: OrderSide, price: u64) -> (r: usize)
    ensures
        r == tail_pos(v@, side, price),
{
    let mut i: usize = v.len();
    proof {
        assert(v@.take(i as int) =~= v@);
    }
    while i > 0
        invariant
            i <= v.len(),
            tail_pos(v@, side, price) == tail_pos(v@.take(i as int), side, price),
        decreases i,
    {
        let better = match side {
            OrderSide::Bid => v[i - 1].price >= price,
            OrderSide::Ask => v[i - 1].price <= price,
        };
        proof {
            assert(v@.take(i as int).drop_last() =~= v@.take(i - 1));
        }
        if better {
            return i;
        }
        i = i - 1;
    }
    i
}

} // verus!
