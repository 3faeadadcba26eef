use vstd::prelude::*;

use crate::types::{AccountId, Order, OrderSide, OrderStatus, OrderType, SelfTradeBehavior, TradeExecution};

verus! {

/// Whether a taker may trade at `maker_price`: market orders take any price, a bid
/// takes asks at or below its limit, an ask takes bids at or above it.
pub open spec fn crosses(taker: Order, maker_price: u64) -> bool {
    taker.order_type is Market || match taker.side {
        OrderSide::Bid => maker_price <= taker.price,
        OrderSide::Ask => maker_price >= taker.price,
    }
}

/// Progress of a taker through the opposite side of the book.
pub struct MatchState {
    /// What is left of the taker.
    pub remaining: u64,
    /// No further maker is looked at.
    pub stopped: bool,
    /// Self-trade prevention has cancelled the taker.
    pub taker_cancelled: bool,
    /// Index of the first maker not yet touched.
    pub next: int,
    /// The maker before `next`, partially filled, which stays at the front of the book.
    pub head: Option<Order>,
    pub trades: Seq<TradeExecution>,
    /// Index, among the makers, of the maker of each trade.
    pub sources: Seq<int>,
    /// Makers taken off the book (filled, or cancelled by self-trade prevention).
    pub removed: Seq<Order>,
}

pub open spec fn init_state(taker: Order) -> MatchState {
    MatchState {
        remaining: taker.remaining_quantity,
        stopped: false,
        taker_cancelled: false,
        next: 0,
        head: None,
        trades: Seq::empty(),
        sources: Seq::empty(),
        removed: Seq::empty(),
    }
}

pub open spec fn trade_of(taker: Order, maker: Order, quantity: u64, now: i64) -> TradeExecution {
    TradeExecution {
        maker_order_id: maker.order_id,
        taker_order_id: taker.order_id,
        maker_owner: maker.owner,
        taker_owner: taker.owner,
        price: maker.price,
        quantity,
        timestamp: now,
        maker_side: maker.side,
    }
}

pub open spec fn cancelled(o: Order) -> Order {
    Order { status: OrderStatus::Cancelled, ..o }
}

pub open spec fn filled(o: Order) -> Order {
    Order { remaining_quantity: 0, status: OrderStatus::Filled, ..o }
}

pub open spec fn reduced(o: Order, by: u64) -> Order {
    Order {
        remaining_quantity: (o.remaining_quantity - by) as u64,
        status: OrderStatus::PartiallyFilled,
        ..o
    }
}

pub open spec fn same_owner(a: AccountId, b: AccountId) -> bool {
    a@ == b@
}

/// The state after the taker meets `makers[st.next]`.
pub open spec fn match_step(taker: Order, makers: Seq<Order>, now: i64, st: MatchState) -> MatchState {
    let m = makers[st.next];
    if !crosses(taker, m.price) {
        MatchState { stopped: true, ..st }
    } else if same_owner(m.owner, taker.owner) {
        let drop_maker = MatchState {
            next: st.next + 1,
            removed: st.removed.push(cancelled(m)),
            ..st
        };
        match taker.self_trade_behavior {
            SelfTradeBehavior::DecrementAndCancel => {
                if st.remaining < m.remaining_quantity {
                    MatchState { stopped: true, taker_cancelled: true, ..st }
                } else if st.remaining > m.remaining_quantity {
                    drop_maker
                } else {
                    MatchState { stopped: true, taker_cancelled: true, ..drop_maker }
                }
            },
            SelfTradeBehavior::CancelProvide => drop_maker,
            SelfTradeBehavior::CancelTake => MatchState { stopped: true, taker_cancelled: true, ..st },
            SelfTradeBehavior::CancelBoth => MatchState { stopped: true, taker_cancelled: true, ..drop_maker },
        }
    } else if st.remaining >= m.remaining_quantity {
        let left = (st.remaining - m.remaining_quantity) as u64;
        MatchState {
            remaining: left,
            stopped: left == 0,
            next: st.next + 1,
            trades: st.trades.push(trade_of(taker, m, m.remaining_quantity, now)),
            sources: st.sources.push(st.next),
            removed: st.removed.push(filled(m)),
            ..st
        }
    } else {
        MatchState {
            remaining: 0,
            stopped: true,
            next: st.next + 1,
            head: Some(reduced(m, st.remaining)),
            trades: st.trades.push(trade_of(taker, m, st.remaining, now)),
            sources: st.sources.push(st.next),
            ..st
        }
    }
}

pub open spec fn can_step(makers: Seq<Order>, st: MatchState) -> bool {
    !st.stopped && 0 <= st.next < makers.len() && st.remaining > 0
}

/// Matching run to its end: price-time order is the order of `makers`.
pub open spec fn run_match(taker: Order, makers: Seq<Order>, now: i64, st: MatchState) -> MatchState
    decreases makers.len() - st.next, (if st.stopped { 0int } else { 1int }),
{
    if can_step(makers, st) {
        run_match(taker, makers, now, match_step(taker, makers, now, st))
    } else {
        st
    }
}

/// Result of matching `taker` against `makers`, best maker first.
pub open spec fn match_result(taker: Order, makers: Seq<Order>, now: i64) -> MatchState {
    run_match(taker, makers, now, init_state(taker))
}

/// The opposite side after matching: the partially filled maker, then the untouched ones.
pub open spec fn rest_of(st: MatchState, makers: Seq<Order>) -> Seq<Order> {
    match st.head {
        Some(h) => seq![h] + makers.subrange(st.next, makers.len() as int),
        None => makers.subrange(st.next, makers.len() as int),
    }
}

/// Number of book mutations a matching run makes (one per maker touched).
pub open spec fn events_of(st: MatchState) -> nat {
    st.removed.len() + if st.head is Some { 1nat } else { 0nat }
}

pub open spec fn traded(trades: Seq<TradeExecution>) -> nat
    decreases trades.len(),
{
    if trades.len() == 0 {
        0
    } else {
        traded(trades.drop_last()) + trades.last().quantity as nat
    }
}

/// `tr` is an execution of `taker` against `maker` at the maker's price, of a positive
/// quantity no larger than either order's remaining quantity, between different owners.
pub open spec fn trade_from(tr: TradeExecution, taker: Order, maker: Order, now: i64) -> bool {
    &&& tr == trade_of(taker, maker, tr.quantity, now)
    &&& tr.price == maker.price
    &&& 0 < tr.quantity <= maker.remaining_quantity
    &&& tr.quantity <= taker.remaining_quantity
    &&& !same_owner(maker.owner, taker.owner)
}

/// What holds at every point of a matching run.
pub open spec fn good(taker: Order, makers: Seq<Order>, now: i64, st: MatchState) -> bool {
    &&& 0 <= st.next <= makers.len()
    &&& st.remaining <= taker.remaining_quantity
    &&& taker.remaining_quantity == st.remaining + traded(st.trades)
    &&& st.sources.len() == st.trades.len()
    &&& forall|k: int|
        0 <= k < st.trades.len() ==> 0 <= #[trigger] st.sources[k] < st.next && trade_from(
            st.trades[k],
            taker,
            makers[st.sources[k]],
            now,
        )
    &&& st.head matches Some(h) ==> {
        &&& st.next >= 1
        &&& st.remaining == 0
        &&& h == reduced(makers[st.next - 1], (makers[st.next - 1].remaining_quantity - h.remaining_quantity) as u64)
        &&& 0 < h.remaining_quantity < makers[st.next - 1].remaining_quantity
    }
    &&& st.removed.len() + (if st.head is Some { 1int } else { 0int }) == st.next
    &&& forall|k: int|
        0 <= k < st.removed.len() ==> (#[trigger] st.removed[k]).order_id == makers[k].order_id
    &&& !st.stopped ==> st.head is None && !st.taker_cancelled
    &&& (st.stopped && !st.taker_cancelled && st.remaining > 0) ==> (st.next < makers.len()
        && !crosses(taker, makers[st.next].price))
}

/// Every order in `s` has something left to trade.
pub open spec fn all_positive(s: Seq<Order>) -> bool {
    forall|i: int| 0 <= i < s.len() ==> (#[trigger] s[i]).remaining_quantity > 0
}

proof fn lemma_traded_push(trades: Seq<TradeExecution>, tr: TradeExecution)
    ensures
        traded(trades.push(tr)) == traded(trades) + tr.quantity,
{
    assert(trades.push(tr).drop_last() =~= trades);
}

/// One step keeps a good state good.
pub proof fn lemma_step_good(taker: Order, makers: Seq<Order>, now: i64, st: MatchState)
    requires
        good(taker, makers, now, st),
        can_step(makers, st),
        all_positive(makers),
    ensures
        good(taker, makers, now, match_step(taker, makers, now, st)),
{
    let m = makers[st.next];
    let s2 = match_step(taker, makers, now, st);
    if crosses(taker, m.price) && !same_owner(m.owner, taker.owner) {
        let q = if st.remaining >= m.remaining_quantity { m.remaining_quantity } else { st.remaining };
        let tr = trade_of(taker, m, q, now);
        lemma_traded_push(st.trades, tr);
        assert(s2.trades == st.trades.push(tr));
        assert(s2.sources == st.sources.push(st.next));
        assert forall|k: int| 0 <= k < s2.trades.len() implies 0 <= #[trigger] s2.sources[k] < s2.next
            && trade_from(s2.trades[k], taker, makers[s2.sources[k]], now) by {
            if k < st.trades.len() {
                assert(s2.trades[k] == st.trades[k]);
                assert(s2.sources[k] == st.sources[k]);
            }
        }
        if st.remaining >= m.remaining_quantity {
            assert forall|k: int| 0 <= k < s2.removed.len() implies (#[trigger] s2.removed[k]).order_id
                == makers[k].order_id by {
                if k < st.removed.len() {
                    assert(s2.removed[k] == st.removed[k]);
                }
            }
        } else {
            assert(s2.head == Some(reduced(m, st.remaining)));
        }
    } else {
        assert forall|k: int| 0 <= k < s2.removed.len() implies (#[trigger] s2.removed[k]).order_id
            == makers[k].order_id by {
            if k < st.removed.len() {
                assert(s2.removed[k] == st.removed[k]);
            }
        }
    }
}

/// Every state a run reaches from a good state is good, and the run stops only where
/// no further step can be taken.
pub proof fn lemma_run_good(taker: Order, makers: Seq<Order>, now: i64, st: MatchState)
    requires
        good(taker, makers, now, st),
        all_positive(makers),
    ensures
        good(taker, makers, now, run_match(taker, makers, now, st)),
        !can_step(makers, run_match(taker, makers, now, st)),
    decreases makers.len() - st.next, (if st.stopped { 0int } else { 1int }),
{
    if can_step(makers, st) {
        lemma_step_good(taker, makers, now, st);
        lemma_run_good(taker, makers, now, match_step(taker, makers, now, st));
    }
}

pub proof fn lemma_init_good(taker: Order, makers: Seq<Order>, now: i64)
    ensures
        good(taker, makers, now, init_state(taker)),
{
}

} // verus!
