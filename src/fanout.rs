use vstd::prelude::*;

use crate::types::{message, same_account, AccountId, MarketDataUpdate, MarketDataUpdateType};

verus! {

/// A topic a streaming client can follow.
#[derive(Debug, Clone)]
pub enum Subscription {
    /// Aggregated depth of a market.
    OrderBook { market: String },
    /// Executions of a market.
    Trades { market: String },
    /// Status changes of one owner's orders.
    UserOrders { user: AccountId },
    /// Every update.
    AllMarkets,
}

/// Messages of a streaming session, in both directions.
#[derive(Debug, Clone)]
pub enum WebSocketMessage {
    Subscribe { subscription: Subscription },
    Unsubscribe { subscription: Subscription },
    MarketData { data: MarketDataUpdate },
    Error { message: String, code: u32 },
    Ping,
    Pong,
}

/// A connected streaming client.
#[derive(Debug, Clone)]
pub struct ClientConnection {
    pub id: u128,
    pub subscriptions: Vec<Subscription>,
    /// Connection time, seconds since the epoch.
    pub connected_at: i64,
}

/// Code of the error sent for a message a client should not send.
pub const UNEXPECTED_MESSAGE_CODE: u32 = 400;

/// `s` selects `u`: by the kind of update, and for an owner's topic by the order's owner.
pub open spec fn selects(s: Subscription, u: MarketDataUpdate) -> bool {
    match s {
        Subscription::OrderBook { .. } => u.update_type is OrderBookUpdate,
        Subscription::Trades { .. } => u.update_type is TradeExecution,
        Subscription::UserOrders { user } => u.update_type is OrderUpdate && (u.order matches Some(o) && o.owner@
            == user@),
        Subscription::AllMarkets => true,
    }
}

/// The two subscriptions name the same topic.
pub open spec fn same_topic(a: Subscription, b: Subscription) -> bool {
    match (a, b) {
        (Subscription::OrderBook { market: m1 }, Subscription::OrderBook { market: m2 }) => m1@ == m2@,
        (Subscription::Trades { market: m1 }, Subscription::Trades { market: m2 }) => m1@ == m2@,
        (Subscription::UserOrders { user: u1 }, Subscription::UserOrders { user: u2 }) => u1@ == u2@,
        (Subscription::AllMarkets, Subscription::AllMarkets) => true,
        _ => false,
    }
}

/// Whether `subscription` selects `update`.
pub fn subscription_selects(subscription: &Subscription, update: &MarketDataUpdate) -> (r: bool)
    ensures
        r == selects(*subscription, *update),
{
    match subscription {
        Subscription::OrderBook { .. } => update.update_type == MarketDataUpdateType::OrderBookUpdate,
        Subscription::Trades { .. } => update.update_type == MarketDataUpdateType::TradeExecution,
        Subscription::UserOrders { user } => {
            update.update_type == MarketDataUpdateType::OrderUpdate && match &update.order {
                Some(o) => same_account(&o.owner, user),
                None => false,
            }
        },
        Subscription::AllMarkets => true,
    }
}

/// Whether a client receives `update`: some subscription of its selects it.
pub fn should_send_update(client: &ClientConnection, update: &MarketDataUpdate) -> (r: bool)
    ensures
        r == exists|i: int|
            0 <= i < client.subscriptions@.len() && selects(#[trigger] client.subscriptions@[i], *update),
{
    let mut i: usize = 0;
    while i < client.subscriptions.len()
        invariant
            i <= client.subscriptions@.len(),
            forall|j: int| 0 <= j < i ==> !selects(#[trigger] client.subscriptions@[j], *update),
        decreases client.subscriptions.len() - i,
    {
        if subscription_selects(&client.subscriptions[i], update) {
            return true;
        }
        i = i + 1;
    }
    false
}

/// Whether two subscriptions name the same topic.
pub fn subscriptions_match(a: &Subscription, b: &Subscription) -> (r: bool)
    ensures
        r == same_topic(*a, *b),
{
    match a {
        Subscription::OrderBook { market: m1 } => match b {
            Subscription::OrderBook { market: m2 } => m1.eq(m2),
            _ => false,
        },
        Subscription::Trades { market: m1 } => match b {
            Subscription::Trades { market: m2 } => m1.eq(m2),
            _ => false,
        },
        Subscription::UserOrders { user: u1 } => match b {
            Subscription::UserOrders { user: u2 } => same_account(u1, u2),
            _ => false,
        },
        Subscription::AllMarkets => match b {
            Subscription::AllMarkets => true,
            _ => false,
        },
    }
}

/// A copy of the subscription.
pub fn copy_subscription(s: &Subscription) -> (r: Subscription)
    ensures
        r == *s,
{
    match s {
        Subscription::OrderBook { market } => Subscription::OrderBook { market: market.clone() },
        Subscription::Trades { market } => Subscription::Trades { market: market.clone() },
        Subscription::UserOrders { user } => Subscription::UserOrders { user: *user },
        Subscription::AllMarkets => Subscription::AllMarkets,
    }
}

/// The subscriptions that do not name the topic of `topic`, in their order.
pub fn without_topic(subscriptions: &Vec<Subscription>, topic: &Subscription) -> (r: Vec<Subscription>)
    ensures
        r@ == subscriptions@.filter(|s: Subscription| !same_topic(s, *topic)),
{
    let mut r: Vec<Subscription> = Vec::new();
    let mut i: usize = 0;
    while i < subscriptions.len()
        invariant
            i <= subscriptions@.len(),
            r@ == subscriptions@.take(i as int).filter(|s: Subscription| !same_topic(s, *topic)),
        decreases subscriptions.len() - i,
    {
        proof {
            reveal(Seq::filter);
            assert(subscriptions@.take(i + 1).drop_last() =~= subscriptions@.take(i as int));
        }
        if !subscriptions_match(&subscriptions[i], topic) {
            r.push(copy_subscription(&subscriptions[i]));
        }
        i = i + 1;
    }
    proof {
        assert(subscriptions@.take(i as int) =~= subscriptions@);
    }
    r
}

/// Applies a message from a client to its subscriptions and gives the reply, if any:
/// subscribing adds the topic, unsubscribing removes every subscription to it (a topic
/// never subscribed is no error), a ping is answered with a pong, and anything else with
/// an error.
pub fn handle_incoming_message(subscriptions: &mut Vec<Subscription>, msg: WebSocketMessage) -> (r: Option<WebSocketMessage>)
    ensures
        match msg {
            WebSocketMessage::Subscribe { subscription } => final(subscriptions)@ == old(subscriptions)@.push(subscription)
                && r is None,
            WebSocketMessage::Unsubscribe { subscription } => final(subscriptions)@ == old(subscriptions)@.filter(
                |s: Subscription| !same_topic(s, subscription),
            ) && r is None,
            WebSocketMessage::Ping => final(subscriptions)@ == old(subscriptions)@ && r == Some(WebSocketMessage::Pong),
            _ => final(subscriptions)@ == old(subscriptions)@ && (r matches Some(WebSocketMessage::Error { code, .. })
                && code == UNEXPECTED_MESSAGE_CODE),
        },
{
    match msg {
        WebSocketMessage::Subscribe { subscription } => {
            subscriptions.push(subscription);
            None
        },
        WebSocketMessage::Unsubscribe { subscription } => {
            let kept = without_topic(subscriptions, &subscription);
            *subscriptions = kept;
            None
        },
        WebSocketMessage::Ping => Some(WebSocketMessage::Pong),
        _ => Some(
            WebSocketMessage::Error {
                message: message("unexpected message type"),
                code: UNEXPECTED_MESSAGE_CODE,
            },
        ),
    }
}

/// Pings a client may leave unanswered before it is disconnected.
pub const MAX_UNANSWERED_PINGS: u32 = 2;

/// Keep-alive state of a session: pings sent since the last pong.
#[derive(Debug, Clone, Copy)]
pub struct KeepAlive {
    pub unanswered: u32,
}

impl KeepAlive {
    pub fn new() -> (r: KeepAlive)
        ensures
            r.unanswered == 0,
    {
        KeepAlive { unanswered: 0 }
    }

    /// Records that the client has not answered the previous ping when the next one is
    /// due; returns whether the session is to be closed instead of pinging again.
    pub fn ping_due(&mut self) -> (close: bool)
        ensures
            close == (old(self).unanswered >= MAX_UNANSWERED_PINGS),
            !close ==> final(self).unanswered == old(self).unanswered + 1,
            close ==> final(self).unanswered == old(self).unanswered,
    {
        if self.unanswered >= MAX_UNANSWERED_PINGS {
            true
        } else {
            self.unanswered = self.unanswered + 1;
            false
        }
    }

    /// Records an answer from the client.
    pub fn pong_received(&mut self)
        ensures
            final(self).unanswered == 0,
    {
        self.unanswered = 0;
    }
}

} // verus!
