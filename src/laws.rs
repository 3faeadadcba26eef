use vstd::prelude::*;

use crate::book::{as_good, depth, level_sum, sat, side_ok, sorted_side, book_ok, lemma_removed_absent, locate, resting_ok, with_removed, BookModel};
use crate::engine::{client_id_live, numbered, placement, placement_error, taker_of};
use crate::matching::{
    all_positive, good, init_state, lemma_init_good, lemma_run_good, match_result, trade_from, traded,
};
use crate::types::{opposite, ClobError, Order, OrderBook, OrderSide, TradeExecution};

verus! {

/// In a well-formed book the best bid is below the best ask whenever both exist; every
/// operation of the book and the engine keeps the book well-formed.
pub proof fn law_best_bid_below_best_ask(m: BookModel)
    requires
        book_ok(m),
    ensures
        m.best(OrderSide::Bid) matches Some(b) ==> m.best(OrderSide::Ask) matches Some(a) ==> b < a,
{
}

/// The makers a new order meets, best first.
pub open spec fn makers_for(m: BookModel, o: Order) -> Seq<Order> {
    numbered(m).side(opposite(o.side))
}

proof fn lemma_good_result(m: BookModel, o: Order, now: i64)
    requires
        book_ok(m),
    ensures
        good(taker_of(m, o, now), makers_for(m, o), now, match_result(taker_of(m, o, now), makers_for(m, o), now)),
{
    let t = taker_of(m, o, now);
    let makers = makers_for(m, o);
    assert forall|i: int| 0 <= i < makers.len() implies (#[trigger] makers[i]).remaining_quantity > 0 by {
        assert(resting_ok(makers[i], opposite(o.side), m.tick_size));
    }
    assert(all_positive(makers));
    lemma_init_good(t, makers, now);
    lemma_run_good(t, makers, now, init_state(t));
}

/// `tr` executed `taker` against one of `makers`.
pub open spec fn from_some_maker(tr: TradeExecution, taker: Order, makers: Seq<Order>, now: i64) -> bool {
    exists|j: int| 0 <= j < makers.len() && #[trigger] trade_from(tr, taker, makers[j], now)
}

/// Every execution of a placement is at the price of a maker that rested on the other
/// side, of a positive quantity no larger than what either order had left, and between
/// different owners.
pub proof fn law_trades_sound(m: BookModel, o: Order, now: i64)
    requires
        book_ok(m),
    ensures
        forall|k: int|
            0 <= k < placement(m, o, now).trades.len() ==> from_some_maker(
                #[trigger] placement(m, o, now).trades[k],
                taker_of(m, o, now),
                makers_for(m, o),
                now,
            ),
{
    lemma_good_result(m, o, now);
    let t = taker_of(m, o, now);
    let makers = makers_for(m, o);
    let st = match_result(t, makers, now);
    let p = placement(m, o, now);
    assert forall|k: int| 0 <= k < p.trades.len() implies from_some_maker(#[trigger] p.trades[k], t, makers, now) by {
        assert(p.trades == st.trades);
        let j = st.sources[k];
        assert(trade_from(p.trades[k], t, makers[j], now));
    }
}

/// What a placement executes and what is left of the taker add up to its quantity.
pub proof fn law_quantity_conserved(m: BookModel, o: Order, now: i64)
    requires
        book_ok(m),
    ensures
        placement(m, o, now).order.quantity == placement(m, o, now).order.remaining_quantity + traded(
            placement(m, o, now).trades,
        ),
{
    lemma_good_result(m, o, now);
}

/// A placement moves the sequence number forward, so no number is given twice.
pub proof fn law_placement_advances_sequence(m: BookModel, o: Order, now: i64)
    requires
        book_ok(m),
        m.has_room(),
    ensures
        placement(m, o, now).book.sequence_number > m.sequence_number,
        placement(m, o, now).order.order_id == m.sequence_number + 1,
{
    lemma_good_result(m, o, now);
}

/// A removal moves the sequence number forward.
pub proof fn law_removal_advances_sequence(m: BookModel, side: OrderSide, k: int)
    requires
        m.sequence_number < u64::MAX,
    ensures
        with_removed(m, side, k).sequence_number > m.sequence_number,
{
}

/// A fill-or-kill order that ends cancelled has no execution.
pub proof fn law_fill_or_kill_atomic(m: BookModel, o: Order, now: i64)
    requires
        book_ok(m),
        o.time_in_force is FillOrKill,
        placement(m, o, now).order.status is Cancelled,
    ensures
        placement(m, o, now).trades.len() == 0,
        placement(m, o, now).book.bids == m.bids,
        placement(m, o, now).book.asks == m.asks,
{
    lemma_good_result(m, o, now);
}

/// A second order with the client id of a live order of the same owner is refused, as a
/// duplicate once the checks before that one pass.
pub proof fn law_duplicate_client_id_refused(c: OrderBook, m: BookModel, o: Order, now: i64)
    requires
        client_id_live(m, o.owner, o.client_order_id),
    ensures
        placement_error(c, m, o, now) is Some,
        !c.is_paused && !(o.time_in_force is GoodTillTime && o.expiry_timestamp <= now) && o.quantity
            >= c.min_order_size && (o.order_type is Market || (o.price % c.tick_size == 0 && o.price != 0))
            ==> placement_error(c, m, o, now) == Some(ClobError::DuplicateOrderId),
{
}

/// Once an order leaves the book no resting order has its id, so cancelling it again finds
/// nothing (`OrderNotFound`) and changes nothing.
pub proof fn law_cancel_is_final(m: BookModel, order_id: u64, side: OrderSide, k: int)
    requires
        book_ok(m),
        locate(m, order_id) == Some((side, k)),
    ensures
        locate(with_removed(m, side, k), order_id) is None,
{
    lemma_removed_absent(m, order_id, side, k);
}

proof fn lemma_no_level(s: Seq<Order>, price: u64)
    requires
        forall|i: int| 0 <= i < s.len() ==> (#[trigger] s[i]).price != price,
    ensures
        level_sum(s, price) == 0,
    decreases s.len(),
{
    if s.len() > 0 {
        assert forall|i: int| 0 <= i < s.drop_last().len() implies (#[trigger] s.drop_last()[i]).price != price by {
            assert(s.drop_last()[i] == s[i]);
        }
        lemma_no_level(s.drop_last(), price);
    }
}

proof fn lemma_level_nonneg(s: Seq<Order>, price: u64)
    ensures
        level_sum(s, price) >= 0,
    decreases s.len(),
{
    if s.len() > 0 {
        lemma_level_nonneg(s.drop_last(), price);
    }
}

/// Each depth entry of a side in priority order is a distinct price with the sum of the
/// remaining quantities of all orders resting at that price (saturating at `u64::MAX`).
pub proof fn law_depth_is_level_sums(s: Seq<Order>, side: OrderSide, tick: u64)
    requires
        side_ok(s, side, tick),
    ensures
        forall|k: int| 0 <= k < depth(s).len() ==> (#[trigger] depth(s)[k]).1 == sat(level_sum(s, depth(s)[k].0)),
        forall|k: int| 0 <= k < depth(s).len() ==> (#[trigger] depth(s)[k]).1 > 0,
        forall|k: int, l: int| 0 <= k < l < depth(s).len() ==> (#[trigger] depth(s)[k]).0 != (#[trigger] depth(s)[l]).0,
        s.len() > 0 ==> depth(s).len() > 0 && depth(s).last().0 == s.last().price,
        s.len() == 0 ==> depth(s).len() == 0,
    decreases s.len(),
{
    if s.len() > 0 {
        let t = s.drop_last();
        let o = s.last();
        assert forall|i: int, j: int| 0 <= i < j < t.len() implies as_good(side, #[trigger] t[i].price, #[trigger] t[j].price)
            && (t[i].price == t[j].price ==> t[i].timestamp <= t[j].timestamp) by {
            assert(t[i] == s[i] && t[j] == s[j]);
        }
        assert forall|i: int| 0 <= i < t.len() implies crate::book::resting_ok(#[trigger] t[i], side, tick) by {
            assert(t[i] == s[i]);
        }
        law_depth_is_level_sums(t, side, tick);
        assert(crate::book::resting_ok(s[s.len() - 1], side, tick));
        let d = depth(t);
        let p = o.price;
        assert forall|q: u64| #![trigger level_sum(s, q)] q != p implies level_sum(s, q) == level_sum(t, q) by {
        }
        lemma_level_nonneg(t, p);
        if d.len() > 0 && d.last().0 == p {
            let nd = depth(s);
            assert(nd == d.update(d.len() - 1, (p, sat(d.last().1 + o.remaining_quantity))));
            assert(level_sum(s, p) == level_sum(t, p) + o.remaining_quantity);
            assert forall|k: int| 0 <= k < nd.len() implies (#[trigger] nd[k]).1 == sat(level_sum(s, nd[k].0)) by {
                if k < nd.len() - 1 {
                    assert(nd[k] == d[k]);
                    assert(d[k].0 != d[d.len() - 1].0);
                }
            }
            assert forall|k: int, l: int| 0 <= k < l < nd.len() implies (#[trigger] nd[k]).0 != (#[trigger] nd[l]).0 by {
                assert(d[k].0 != d[l].0);
            }
        } else {
            let nd = depth(s);
            assert(nd == d.push((p, o.remaining_quantity)));
            if t.len() > 0 {
                assert forall|i: int| 0 <= i < t.len() implies (#[trigger] t[i]).price != p by {
                    if i < t.len() - 1 {
                        assert(as_good(side, t[i].price, t[t.len() - 1].price));
                    }
                    assert(as_good(side, s[t.len() - 1].price, s[s.len() - 1].price));
                    assert(t[t.len() - 1] == s[t.len() - 1]);
                }
            }
            lemma_no_level(t, p);
            assert forall|k: int| 0 <= k < nd.len() implies (#[trigger] nd[k]).1 == sat(level_sum(s, nd[k].0)) by {
                if k < nd.len() - 1 {
                    assert(nd[k] == d[k]);
                    if d[k].0 == p {
                        assert(d[k].1 > 0);
                    }
                }
            }
            assert forall|k: int, l: int| 0 <= k < l < nd.len() implies (#[trigger] nd[k]).0 != (#[trigger] nd[l]).0 by {
                if l == nd.len() - 1 {
                    assert(nd[k] == d[k]);
                    assert(d[k].1 > 0);
                } else {
                    assert(d[k].0 != d[l].0);
                }
            }
        }
    }
}

} // verus!
