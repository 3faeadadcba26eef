use vstd::prelude::*;

use crate::types::{
    OrderBookSnapshot, side_code, status_code, stp_code, tif_code, type_code, AccountId, Order, OrderSide, OrderStatus, OrderType,
    SelfTradeBehavior, TimeInForce, TradeExecution,
};

verus! {

/// Length of an encoded order record.
pub const ORDER_RECORD_LEN: usize = 93;

/// Length of an encoded trade record.
pub const TRADE_RECORD_LEN: usize = 105;

/// The eight bytes of `x`, least significant first.
pub open spec fn le_bytes(x: u64) -> Seq<u8> {
    seq![
        x as u8,
        (x >> 8u64) as u8,
        (x >> 16u64) as u8,
        (x >> 24u64) as u8,
        (x >> 32u64) as u8,
        (x >> 40u64) as u8,
        (x >> 48u64) as u8,
        (x >> 56u64) as u8,
    ]
}

/// The number whose bytes, least significant first, are `b[at..at + 8]`.
pub open spec fn le_value(b: Seq<u8>, at: int) -> u64 {
    (b[at] as u64) | ((b[at + 1] as u64) << 8u64) | ((b[at + 2] as u64) << 16u64) | ((b[at + 3] as u64) << 24u64)
        | ((b[at + 4] as u64) << 32u64) | ((b[at + 5] as u64) << 40u64) | ((b[at + 6] as u64) << 48u64) | ((b[at
        + 7] as u64) << 56u64)
}

proof fn lemma_le_bytes_of_value(b: Seq<u8>, at: int)
    requires
        0 <= at,
        at + 8 <= b.len(),
    ensures
        le_bytes(le_value(b, at)) == b.subrange(at, at + 8),
{
    let (b0, b1, b2, b3, b4, b5, b6, b7) = (b[at], b[at + 1], b[at + 2], b[at + 3], b[at + 4], b[at + 5], b[at + 6], b[at + 7]);
    let x = le_value(b, at);
    assert(x == (b0 as u64) | ((b1 as u64) << 8u64) | ((b2 as u64) << 16u64) | ((b3 as u64) << 24u64) | ((b4 as u64)
        << 32u64) | ((b5 as u64) << 40u64) | ((b6 as u64) << 48u64) | ((b7 as u64) << 56u64));
    assert(x as u8 == b0 && (x >> 8u64) as u8 == b1 && (x >> 16u64) as u8 == b2 && (x >> 24u64) as u8 == b3 && (x
        >> 32u64) as u8 == b4 && (x >> 40u64) as u8 == b5 && (x >> 48u64) as u8 == b6 && (x >> 56u64) as u8 == b7)
        by (bit_vector)
        requires
            x == (b0 as u64) | ((b1 as u64) << 8u64) | ((b2 as u64) << 16u64) | ((b3 as u64) << 24u64) | ((b4 as u64)
                << 32u64) | ((b5 as u64) << 40u64) | ((b6 as u64) << 48u64) | ((b7 as u64) << 56u64),
    ;
    assert(le_bytes(x) =~= b.subrange(at, at + 8));
}

proof fn lemma_signed_round_trip(x: u64)
    ensures
        ((x as i64) as u64) == x,
{
    assert(((x as i64) as u64) == x) by (bit_vector);
}

/// Appends the eight bytes of `x`, least significant first.
fn put_u64(out: &mut Vec<u8>, x: u64)
    ensures
        final(out)@ == old(out)@ + le_bytes(x),
{
    out.push(x as u8);
    out.push((x >> 8u64) as u8);
    out.push((x >> 16u64) as u8);
    out.push((x >> 24u64) as u8);
    out.push((x >> 32u64) as u8);
    out.push((x >> 40u64) as u8);
    out.push((x >> 48u64) as u8);
    out.push((x >> 56u64) as u8);
    assert(final(out)@ =~= old(out)@ + le_bytes(x));
}

/// Reads eight bytes at `at`, least significant first.
fn get_u64(b: &[u8], at: usize) -> (r: u64)
    requires
        at + 8 <= b@.len(),
    ensures
        r == le_value(b@, at as int),
{
    (b[at] as u64) | ((b[at + 1] as u64) << 8u64) | ((b[at + 2] as u64) << 16u64) | ((b[at + 3] as u64) << 24u64)
        | ((b[at + 4] as u64) << 32u64) | ((b[at + 5] as u64) << 40u64) | ((b[at + 6] as u64) << 48u64) | ((b[at
        + 7] as u64) << 56u64)
}

/// Appends the 32 bytes of an account.
fn put_account(out: &mut Vec<u8>, a: &AccountId)
    ensures
        final(out)@ == old(out)@ + a@,
{
    let ghost start = out@;
    let mut i: usize = 0;
    while i < 32
        invariant
            i <= 32,
            a@.len() == 32,
            out@ == start + a@.take(i as int),
        decreases 32 - i,
    {
        out.push(a[i]);
        i = i + 1;
        proof {
            assert(out@ =~= start + a@.take(i as int));
        }
    }
    proof {
        assert(a@.take(32) =~= a@);
    }
}

/// Reads 32 bytes at `at` as an account.
fn get_account(b: &[u8], at: usize) -> (r: AccountId)
    requires
        at + 32 <= b@.len(),
    ensures
        r@ == b@.subrange(at as int, at + 32),
{
    let mut a: AccountId = [0u8; 32];
    let n = b.len();
    let mut i: usize = 0;
    while i < 32
        invariant
            i <= 32,
            n == b@.len(),
            at + 32 <= b@.len(),
            a@.len() == 32,
            forall|j: int| 0 <= j < i ==> a@[j] == b@[at + j],
        decreases 32 - i,
    {
        a[i] = b[at + i];
        i = i + 1;
    }
    assert(a@ =~= b@.subrange(at as int, at + 32));
    a
}

pub open spec fn side_of(c: u8) -> Option<OrderSide> {
    if c == 0 {
        Some(OrderSide::Bid)
    } else if c == 1 {
        Some(OrderSide::Ask)
    } else {
        None
    }
}

pub open spec fn order_type_of(c: u8) -> Option<OrderType> {
    if c == 0 {
        Some(OrderType::Limit)
    } else if c == 1 {
        Some(OrderType::Market)
    } else if c == 2 {
        Some(OrderType::PostOnly)
    } else {
        None
    }
}

pub open spec fn status_of(c: u8) -> Option<OrderStatus> {
    if c == 0 {
        Some(OrderStatus::Open)
    } else if c == 1 {
        Some(OrderStatus::PartiallyFilled)
    } else if c == 2 {
        Some(OrderStatus::Filled)
    } else if c == 3 {
        Some(OrderStatus::Cancelled)
    } else if c == 4 {
        Some(OrderStatus::Expired)
    } else {
        None
    }
}

pub open spec fn stp_of(c: u8) -> Option<SelfTradeBehavior> {
    if c == 0 {
        Some(SelfTradeBehavior::DecrementAndCancel)
    } else if c == 1 {
        Some(SelfTradeBehavior::CancelProvide)
    } else if c == 2 {
        Some(SelfTradeBehavior::CancelTake)
    } else if c == 3 {
        Some(SelfTradeBehavior::CancelBoth)
    } else {
        None
    }
}

pub open spec fn tif_of(c: u8) -> Option<TimeInForce> {
    if c == 0 {
        Some(TimeInForce::GoodTillCancelled)
    } else if c == 1 {
        Some(TimeInForce::ImmediateOrCancel)
    } else if c == 2 {
        Some(TimeInForce::FillOrKill)
    } else if c == 3 {
        Some(TimeInForce::GoodTillTime)
    } else {
        None
    }
}

/// The record of an order: its integers in eight little-endian bytes each, its owner, and
/// one byte for each of side, type, status, self-trade behaviour and time in force.
pub open spec fn order_bytes(o: Order) -> Seq<u8> {
    le_bytes(o.order_id) + o.owner@ + le_bytes(o.price) + le_bytes(o.quantity) + le_bytes(o.remaining_quantity)
        + le_bytes(o.timestamp as u64) + le_bytes(o.client_order_id) + le_bytes(o.expiry_timestamp as u64) + seq![
        side_code(o.side),
        type_code(o.order_type),
        status_code(o.status),
        stp_code(o.self_trade_behavior),
        tif_code(o.time_in_force),
    ]
}

/// `b` is the record of some order.
pub open spec fn order_decodable(b: Seq<u8>) -> bool {
    &&& b.len() == ORDER_RECORD_LEN
    &&& side_of(b[88]) is Some
    &&& order_type_of(b[89]) is Some
    &&& status_of(b[90]) is Some
    &&& stp_of(b[91]) is Some
    &&& tif_of(b[92]) is Some
}

/// The record of a trade: its integers in eight little-endian bytes each, both owners, and
/// one byte for the maker's side.
pub open spec fn trade_bytes(t: TradeExecution) -> Seq<u8> {
    le_bytes(t.maker_order_id) + le_bytes(t.taker_order_id) + t.maker_owner@ + t.taker_owner@ + le_bytes(t.price)
        + le_bytes(t.quantity) + le_bytes(t.timestamp as u64) + seq![side_code(t.maker_side)]
}

/// `b` is the record of some trade.
pub open spec fn trade_decodable(b: Seq<u8>) -> bool {
    b.len() == TRADE_RECORD_LEN && side_of(b[104]) is Some
}

/// The record of `o`.
pub fn encode_order(o: &Order) -> (r: Vec<u8>)
    ensures
        r@ == order_bytes(*o),
{
    let mut out: Vec<u8> = Vec::new();
    put_u64(&mut out, o.order_id);
    put_account(&mut out, &o.owner);
    put_u64(&mut out, o.price);
    put_u64(&mut out, o.quantity);
    put_u64(&mut out, o.remaining_quantity);
    put_u64(&mut out, o.timestamp as u64);
    put_u64(&mut out, o.client_order_id);
    put_u64(&mut out, o.expiry_timestamp as u64);
    out.push(o.side.to_u8());
    out.push(o.order_type.to_u8());
    out.push(o.status.to_u8());
    out.push(o.self_trade_behavior.to_u8());
    out.push(o.time_in_force.to_u8());
    assert(out@ =~= order_bytes(*o));
    out
}

/// The order whose record is `b`, if `b` is one; encoding it again gives `b`.
pub fn decode_order(b: &[u8]) -> (r: Option<Order>)
    ensures
        r is Some <==> order_decodable(b@),
        r matches Some(o) ==> order_bytes(o) == b@,
{
    if b.len() != ORDER_RECORD_LEN {
        return None;
    }
    let side = match OrderSide::try_from_u8(b[88]) {
        Some(s) => s,
        None => return None,
    };
    let order_type = match OrderType::try_from_u8(b[89]) {
        Some(t) => t,
        None => return None,
    };
    let status = match OrderStatus::try_from_u8(b[90]) {
        Some(s) => s,
        None => return None,
    };
    let self_trade_behavior = match SelfTradeBehavior::try_from_u8(b[91]) {
        Some(s) => s,
        None => return None,
    };
    let time_in_force = match TimeInForce::try_from_u8(b[92]) {
        Some(t) => t,
        None => return None,
    };
    let timestamp_bits = get_u64(b, 64);
    let expiry_bits = get_u64(b, 80);
    let o = Order {
        order_id: get_u64(b, 0),
        owner: get_account(b, 8),
        price: get_u64(b, 40),
        quantity: get_u64(b, 48),
        remaining_quantity: get_u64(b, 56),
        timestamp: #[verifier::truncate] (timestamp_bits as i64),
        client_order_id: get_u64(b, 72),
        expiry_timestamp: #[verifier::truncate] (expiry_bits as i64),
        side,
        order_type,
        status,
        self_trade_behavior,
        time_in_force,
    };
    proof {
        lemma_signed_round_trip(timestamp_bits);
        lemma_signed_round_trip(expiry_bits);
        lemma_le_bytes_of_value(b@, 0);
        lemma_le_bytes_of_value(b@, 40);
        lemma_le_bytes_of_value(b@, 48);
        lemma_le_bytes_of_value(b@, 56);
        lemma_le_bytes_of_value(b@, 64);
        lemma_le_bytes_of_value(b@, 72);
        lemma_le_bytes_of_value(b@, 80);
        let v = b@;
        assert(v =~= v.subrange(0, 8) + v.subrange(8, 40) + v.subrange(40, 48) + v.subrange(48, 56) + v.subrange(56, 64)
            + v.subrange(64, 72) + v.subrange(72, 80) + v.subrange(80, 88) + v.subrange(88, 93));
        assert(v.subrange(88, 93) =~= seq![v[88], v[89], v[90], v[91], v[92]]);
        assert(order_bytes(o) =~= b@);
    }
    Some(o)
}

/// The record of `t`.
pub fn encode_trade(t: &TradeExecution) -> (r: Vec<u8>)
    ensures
        r@ == trade_bytes(*t),
{
    let mut out: Vec<u8> = Vec::new();
    put_u64(&mut out, t.maker_order_id);
    put_u64(&mut out, t.taker_order_id);
    put_account(&mut out, &t.maker_owner);
    put_account(&mut out, &t.taker_owner);
    put_u64(&mut out, t.price);
    put_u64(&mut out, t.quantity);
    put_u64(&mut out, t.timestamp as u64);
    out.push(t.maker_side.to_u8());
    assert(out@ =~= trade_bytes(*t));
    out
}

/// The trade whose record is `b`, if `b` is one; encoding it again gives `b`.
pub fn decode_trade(b: &[u8]) -> (r: Option<TradeExecution>)
    ensures
        r is Some <==> trade_decodable(b@),
        r matches Some(t) ==> trade_bytes(t) == b@,
{
    if b.len() != TRADE_RECORD_LEN {
        return None;
    }
    let maker_side = match OrderSide::try_from_u8(b[104]) {
        Some(s) => s,
        None => return None,
    };
    let timestamp_bits = get_u64(b, 96);
    let t = TradeExecution {
        maker_order_id: get_u64(b, 0),
        taker_order_id: get_u64(b, 8),
        maker_owner: get_account(b, 16),
        taker_owner: get_account(b, 48),
        price: get_u64(b, 80),
        quantity: get_u64(b, 88),
        timestamp: #[verifier::truncate] (timestamp_bits as i64),
        maker_side,
    };
    proof {
        lemma_signed_round_trip(timestamp_bits);
        lemma_le_bytes_of_value(b@, 0);
        lemma_le_bytes_of_value(b@, 8);
        lemma_le_bytes_of_value(b@, 80);
        lemma_le_bytes_of_value(b@, 88);
        lemma_le_bytes_of_value(b@, 96);
        let v = b@;
        assert(v =~= v.subrange(0, 8) + v.subrange(8, 16) + v.subrange(16, 48) + v.subrange(48, 80) + v.subrange(80, 88)
            + v.subrange(88, 96) + v.subrange(96, 104) + v.subrange(104, 105));
        assert(v.subrange(104, 105) =~= seq![v[104]]);
        assert(trade_bytes(t) =~= b@);
    }
    Some(t)
}

/// The record of every order decodes; by `decode_order`'s contract the order it decodes to
/// encodes to the same bytes again.
pub proof fn law_order_record_round_trip(o: Order)
    ensures
        order_decodable(order_bytes(o)),
{
    let b = order_bytes(o);
    assert(b.len() == ORDER_RECORD_LEN);
    assert(b[88] == side_code(o.side));
    assert(b[89] == type_code(o.order_type));
    assert(b[90] == status_code(o.status));
    assert(b[91] == stp_code(o.self_trade_behavior));
    assert(b[92] == tif_code(o.time_in_force));
}

/// The record of every trade decodes; by `decode_trade`'s contract the trade it decodes to
/// encodes to the same bytes again.
pub proof fn law_trade_record_round_trip(t: TradeExecution)
    ensures
        trade_decodable(trade_bytes(t)),
{
    let b = trade_bytes(t);
    assert(b.len() == TRADE_RECORD_LEN);
    assert(b[104] == side_code(t.maker_side));
}

proof fn lemma_le_value_of_bytes(x: u64, b: Seq<u8>, at: int)
    requires
        0 <= at,
        at + 8 <= b.len(),
        b.subrange(at, at + 8) == le_bytes(x),
    ensures
        le_value(b, at) == x,
{
    let s = b.subrange(at, at + 8);
    assert(b[at] == s[0] && b[at + 1] == s[1] && b[at + 2] == s[2] && b[at + 3] == s[3] && b[at + 4] == s[4] && b[at
        + 5] == s[5] && b[at + 6] == s[6] && b[at + 7] == s[7]);
    let (b0, b1, b2, b3, b4, b5, b6, b7) = (x as u8, (x >> 8u64) as u8, (x >> 16u64) as u8, (x >> 24u64) as u8, (x
        >> 32u64) as u8, (x >> 40u64) as u8, (x >> 48u64) as u8, (x >> 56u64) as u8);
    assert((b0 as u64) | ((b1 as u64) << 8u64) | ((b2 as u64) << 16u64) | ((b3 as u64) << 24u64) | ((b4 as u64)
        << 32u64) | ((b5 as u64) << 40u64) | ((b6 as u64) << 48u64) | ((b7 as u64) << 56u64) == x) by (bit_vector)
        requires
            b0 == x as u8,
            b1 == (x >> 8u64) as u8,
            b2 == (x >> 16u64) as u8,
            b3 == (x >> 24u64) as u8,
            b4 == (x >> 32u64) as u8,
            b5 == (x >> 40u64) as u8,
            b6 == (x >> 48u64) as u8,
            b7 == (x >> 56u64) as u8,
    ;
}

/// Price levels, each as its price and its quantity in eight little-endian bytes.
pub open spec fn levels_bytes(l: Seq<(u64, u64)>) -> Seq<u8>
    decreases l.len(),
{
    if l.len() == 0 {
        Seq::empty()
    } else {
        levels_bytes(l.drop_last()) + le_bytes(l.last().0) + le_bytes(l.last().1)
    }
}

proof fn lemma_levels_len(l: Seq<(u64, u64)>)
    ensures
        levels_bytes(l).len() == 16 * l.len(),
    decreases l.len(),
{
    if l.len() > 0 {
        lemma_levels_len(l.drop_last());
    }
}

/// The record of a snapshot: sequence number, time, then the bid levels and the ask levels,
/// each list preceded by its length; every integer in eight little-endian bytes.
pub open spec fn snapshot_bytes(bids: Seq<(u64, u64)>, asks: Seq<(u64, u64)>, sequence_number: u64, timestamp: i64) -> Seq<u8> {
    le_bytes(sequence_number) + le_bytes(timestamp as u64) + le_bytes(bids.len() as u64) + levels_bytes(bids)
        + le_bytes(asks.len() as u64) + levels_bytes(asks)
}

/// `b` is the record of some snapshot.
pub open spec fn snapshot_decodable(b: Seq<u8>) -> bool {
    &&& b.len() >= 32
    &&& 32 + 16 * le_value(b, 16) <= b.len()
    &&& b.len() == 32 + 16 * le_value(b, 16) + 16 * le_value(b, 24 + 16 * le_value(b, 16))
}

fn put_levels(out: &mut Vec<u8>, l: &Vec<(u64, u64)>)
    ensures
        final(out)@ == old(out)@ + le_bytes(l@.len() as u64) + levels_bytes(l@),
{
    put_u64(out, l.len() as u64);
    let ghost start = out@;
    let mut i: usize = 0;
    while i < l.len()
        invariant
            i <= l@.len(),
            out@ == start + levels_bytes(l@.take(i as int)),
        decreases l.len() - i,
    {
        proof {
            assert(l@.take(i + 1).drop_last() =~= l@.take(i as int));
        }
        put_u64(out, l[i].0);
        put_u64(out, l[i].1);
        i = i + 1;
        proof {
            assert(out@ =~= start + levels_bytes(l@.take(i as int)));
        }
    }
    proof {
        assert(l@.take(i as int) =~= l@);
    }
}

/// Reads `n` levels starting at `at`.
fn get_levels(b: &[u8], at: usize, n: usize) -> (r: Vec<(u64, u64)>)
    requires
        at + 16 * n <= b@.len(),
    ensures
        r@.len() == n,
        levels_bytes(r@) == b@.subrange(at as int, at + 16 * n),
{
    let mut r: Vec<(u64, u64)> = Vec::new();
    let len = b.len();
    let mut i: usize = 0;
    while i < n
        invariant
            len == b@.len(),
            at + 16 * n <= b@.len(),
            i <= n,
            r@.len() == i,
            levels_bytes(r@) == b@.subrange(at as int, at + 16 * i),
        decreases n - i,
    {
        assert(at + 16 * i + 16 <= at + 16 * n) by (nonlinear_arith)
            requires
                i < n,
        ;
        let pos = at + 16 * i;
        let price = get_u64(b, pos);
        let quantity = get_u64(b, pos + 8);
        proof {
            lemma_le_bytes_of_value(b@, pos as int);
            lemma_le_bytes_of_value(b@, pos + 8);
            let old_r = r@;
            let nr = old_r.push((price, quantity));
            assert(nr.drop_last() =~= old_r);
            assert(b@.subrange(at as int, at + 16 * (i + 1)) =~= b@.subrange(at as int, at + 16 * i) + b@.subrange(
                pos as int,
                pos + 8,
            ) + b@.subrange(pos + 8, pos + 16));
        }
        r.push((price, quantity));
        i = i + 1;
    }
    r
}

/// The record of `s`.
pub fn encode_snapshot(s: &OrderBookSnapshot) -> (r: Vec<u8>)
    ensures
        r@ == snapshot_bytes(s.bids@, s.asks@, s.sequence_number, s.timestamp),
{
    let mut out: Vec<u8> = Vec::new();
    put_u64(&mut out, s.sequence_number);
    put_u64(&mut out, s.timestamp as u64);
    put_levels(&mut out, &s.bids);
    put_levels(&mut out, &s.asks);
    assert(out@ =~= snapshot_bytes(s.bids@, s.asks@, s.sequence_number, s.timestamp));
    out
}

/// The snapshot whose record is `b`, if `b` is one; encoding it again gives `b`.
pub fn decode_snapshot(b: &[u8]) -> (r: Option<OrderBookSnapshot>)
    ensures
        r is Some <==> snapshot_decodable(b@),
        r matches Some(s) ==> snapshot_bytes(s.bids@, s.asks@, s.sequence_number, s.timestamp) == b@,
{
    let len = b.len();
    if len < 32 {
        return None;
    }
    let nb = get_u64(b, 16);
    if nb > ((len - 32) / 16) as u64 {
        return None;
    }
    let nb = nb as usize;
    let asks_at = 24 + 16 * nb;
    let na = get_u64(b, asks_at);
    if na > ((len - 32 - 16 * nb) / 16) as u64 || len != 32 + 16 * nb + 16 * (na as usize) {
        return None;
    }
    let na = na as usize;
    let sequence_number = get_u64(b, 0);
    let time_bits = get_u64(b, 8);
    let bids = get_levels(b, 24, nb);
    let asks = get_levels(b, asks_at + 8, na);
    let s = OrderBookSnapshot { bids, asks, sequence_number, timestamp: #[verifier::truncate] (time_bits as i64) };
    proof {
        lemma_signed_round_trip(time_bits);
        lemma_le_bytes_of_value(b@, 0);
        lemma_le_bytes_of_value(b@, 8);
        lemma_le_bytes_of_value(b@, 16);
        lemma_le_bytes_of_value(b@, asks_at as int);
        let v = b@;
        assert(v =~= v.subrange(0, 8) + v.subrange(8, 16) + v.subrange(16, 24) + v.subrange(24, asks_at as int)
            + v.subrange(asks_at as int, asks_at + 8) + v.subrange(asks_at + 8, len as int));
        assert(snapshot_bytes(s.bids@, s.asks@, s.sequence_number, s.timestamp) =~= b@);
    }
    Some(s)
}

/// The record of every snapshot decodes; by `decode_snapshot`'s contract the snapshot it
/// decodes to encodes to the same bytes again.
pub proof fn law_snapshot_record_round_trip(bids: Seq<(u64, u64)>, asks: Seq<(u64, u64)>, sequence_number: u64, timestamp: i64)
    requires
        16 * (bids.len() + asks.len()) + 32 <= u64::MAX,
    ensures
        snapshot_decodable(snapshot_bytes(bids, asks, sequence_number, timestamp)),
{
    let b = snapshot_bytes(bids, asks, sequence_number, timestamp);
    lemma_levels_len(bids);
    lemma_levels_len(asks);
    let nb = bids.len() as u64;
    let na = asks.len() as u64;
    assert(b.subrange(16, 24) =~= le_bytes(nb));
    lemma_le_value_of_bytes(nb, b, 16);
    let at: int = 24 + 16 * (bids.len() as int);
    assert(b.subrange(at, at + 8) =~= le_bytes(na));
    lemma_le_value_of_bytes(na, b, at);
}

} // verus!
