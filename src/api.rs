use vstd::prelude::*;

use vstd::string::StringSliceAdditionalSpecFns;

use crate::book::sat;
use crate::types::{AccountId, ClobError, TradeExecution};

verus! {

/// Number of recent trades returned when a caller names none.
pub const DEFAULT_TRADES_LIMIT: u32 = 100;

/// Most recent trades a caller may ask for.
pub const MAX_TRADES_LIMIT: u32 = 1000;

/// How many recent trades to return for a requested limit.
pub fn trades_limit(requested: Option<u32>) -> (r: u32)
    ensures
        r == match requested {
            Some(n) => if n < MAX_TRADES_LIMIT { n } else { MAX_TRADES_LIMIT },
            None => DEFAULT_TRADES_LIMIT,
        },
{
    let n = match requested {
        Some(n) => n,
        None => DEFAULT_TRADES_LIMIT,
    };
    if n < MAX_TRADES_LIMIT {
        n
    } else {
        MAX_TRADES_LIMIT
    }
}

/// Figures over a list of recent trades, newest first.
#[derive(Debug, Clone, Copy)]
pub struct TradeStats {
    pub last_price: Option<u64>,
    /// Sum of the quantities, saturating at `u64::MAX`.
    pub volume_24h: u64,
    pub high_24h: Option<u64>,
    pub low_24h: Option<u64>,
}

pub open spec fn volume(s: Seq<TradeExecution>) -> int
    decreases s.len(),
{
    if s.len() == 0 {
        0
    } else {
        volume(s.drop_last()) + s.last().quantity
    }
}

pub open spec fn highest(s: Seq<TradeExecution>) -> Option<u64>
    decreases s.len(),
{
    if s.len() == 0 {
        None
    } else {
        match highest(s.drop_last()) {
            Some(h) => Some(if s.last().price > h { s.last().price } else { h }),
            None => Some(s.last().price),
        }
    }
}

pub open spec fn lowest(s: Seq<TradeExecution>) -> Option<u64>
    decreases s.len(),
{
    if s.len() == 0 {
        None
    } else {
        match lowest(s.drop_last()) {
            Some(l) => Some(if s.last().price < l { s.last().price } else { l }),
            None => Some(s.last().price),
        }
    }
}

/// Last price, volume, high and low of `trades` (newest first).
pub fn trade_stats(trades: &Vec<TradeExecution>) -> (r: TradeStats)
    ensures
        r.last_price == (if trades@.len() > 0 { Some(trades@[0].price) } else { None::<u64> }),
        r.volume_24h == sat(volume(trades@)),
        r.high_24h == highest(trades@),
        r.low_24h == lowest(trades@),
{
    let mut volume_24h: u64 = 0;
    let mut high: Option<u64> = None;
    let mut low: Option<u64> = None;
    let mut i: usize = 0;
    while i < trades.len()
        invariant
            i <= trades@.len(),
            volume(trades@.take(i as int)) >= 0,
            volume_24h == sat(volume(trades@.take(i as int))),
            high == highest(trades@.take(i as int)),
            low == lowest(trades@.take(i as int)),
        decreases trades.len() - i,
    {
        proof {
            assert(trades@.take(i + 1).drop_last() =~= trades@.take(i as int));
        }
        let t = trades[i];
        volume_24h = volume_24h.saturating_add(t.quantity);
        high = match high {
            Some(h) => Some(if t.price > h { t.price } else { h }),
            None => Some(t.price),
        };
        low = match low {
            Some(l) => Some(if t.price < l { t.price } else { l }),
            None => Some(t.price),
        };
        i = i + 1;
    }
    proof {
        assert(trades@.take(i as int) =~= trades@);
    }
    let last_price = if trades.len() > 0 {
        Some(trades[0].price)
    } else {
        None
    };
    TradeStats { last_price, volume_24h, high_24h: high, low_24h: low }
}

/// The key that a base58 text names, if it names one.
pub uninterp spec fn decoded_key(s: Seq<char>) -> Option<AccountId>;

/// Relies on solana-pubkey's `Pubkey::from_str` (base58 text of a 32-byte key) and
/// `Pubkey::to_bytes`; the result depends on the text alone.
#[verifier::external_body]
fn parse_pubkey(s: &str) -> (r: Option<AccountId>)
    ensures
        r == decoded_key(s@),
{
    match s.parse::<solana_pubkey::Pubkey>() {
        Ok(k) => Some(k.to_bytes()),
        Err(_) => None,
    }
}

/// The account that a base58 text names, if it names one.
pub fn account_id_from_text(s: &str) -> (r: Option<AccountId>)
    ensures
        r == decoded_key(s@),
{
    parse_pubkey(s)
}

/// Why a service configuration is refused.
#[derive(Debug, Clone, Copy, PartialEq, Eq, Structural)]
pub enum ConfigError {
    InvalidDatabaseUrl,
    InvalidRedisUrl,
    InvalidBaseMint,
    InvalidQuoteMint,
    ZeroTickSize,
    ZeroMinOrderSize,
}

pub open spec fn has_prefix_spec(s: Seq<u8>, prefix: Seq<u8>) -> bool {
    prefix.len() <= s.len() && s.take(prefix.len() as int) == prefix
}

/// Whether the text `s` begins with `prefix`.
pub fn has_prefix(s: &str, prefix: &str) -> (r: bool)
    ensures
        r == has_prefix_spec(s.spec_bytes(), prefix.spec_bytes()),
{
    let a = s.as_bytes();
    let b = prefix.as_bytes();
    if b.len() > a.len() {
        return false;
    }
    let mut i: usize = 0;
    while i < b.len()
        invariant
            a@ == s.spec_bytes(),
            b@ == prefix.spec_bytes(),
            b@.len() <= a@.len(),
            i <= b@.len(),
            forall|j: int| 0 <= j < i ==> a@[j] == b@[j],
        decreases b.len() - i,
    {
        if a[i] != b[i] {
            proof {
                let t = a@.take(b@.len() as int);
                assert(t[i as int] != b@[i as int]);
                assert(t != b@);
            }
            return false;
        }
        i = i + 1;
    }
    assert(a@.take(b@.len() as int) =~= b@);
    true
}

/// Scheme a database URL must start with.
pub const DATABASE_URL_PREFIX: &'static str = "postgresql://";

/// Scheme a cache URL must start with.
pub const REDIS_URL_PREFIX: &'static str = "redis://";

pub open spec fn config_error(
    database_url: Seq<u8>,
    redis_url: Seq<u8>,
    base_mint: Seq<char>,
    quote_mint: Seq<char>,
    tick_size: u64,
    min_order_size: u64,
) -> Option<ConfigError> {
    if !has_prefix_spec(database_url, DATABASE_URL_PREFIX.spec_bytes()) {
        Some(ConfigError::InvalidDatabaseUrl)
    } else if !has_prefix_spec(redis_url, REDIS_URL_PREFIX.spec_bytes()) {
        Some(ConfigError::InvalidRedisUrl)
    } else if decoded_key(base_mint) is None {
        Some(ConfigError::InvalidBaseMint)
    } else if decoded_key(quote_mint) is None {
        Some(ConfigError::InvalidQuoteMint)
    } else if tick_size == 0 {
        Some(ConfigError::ZeroTickSize)
    } else if min_order_size == 0 {
        Some(ConfigError::ZeroMinOrderSize)
    } else {
        None
    }
}

/// Checks the settings a service starts from: the two URLs' schemes, the two mints, and
/// positive tick and minimum order sizes, in this order.
pub fn validate_config(
    database_url: &str,
    redis_url: &str,
    base_mint: &str,
    quote_mint: &str,
    tick_size: u64,
    min_order_size: u64,
) -> (r: Result<(), ConfigError>)
    ensures
        r == match config_error(
            database_url.spec_bytes(),
            redis_url.spec_bytes(),
            base_mint@,
            quote_mint@,
            tick_size,
            min_order_size,
        ) {
            Some(e) => Err::<(), ConfigError>(e),
            None => Ok(()),
        },
{
    if !has_prefix(database_url, DATABASE_URL_PREFIX) {
        return Err(ConfigError::InvalidDatabaseUrl);
    }
    if !has_prefix(redis_url, REDIS_URL_PREFIX) {
        return Err(ConfigError::InvalidRedisUrl);
    }
    if parse_pubkey(base_mint).is_none() {
        return Err(ConfigError::InvalidBaseMint);
    }
    if parse_pubkey(quote_mint).is_none() {
        return Err(ConfigError::InvalidQuoteMint);
    }
    if tick_size == 0 {
        return Err(ConfigError::ZeroTickSize);
    }
    if min_order_size == 0 {
        return Err(ConfigError::ZeroMinOrderSize);
    }
    Ok(())
}

/// HTTP status for an error of the request API: 404 for an unknown order, 403 for another
/// owner's order, 409 for a policy rejection, 500 for the infrastructure, 400 otherwise.
pub fn error_status(e: &ClobError) -> (r: u16)
    ensures
        r == match e {
            ClobError::OrderNotFound => 404u16,
            ClobError::Unauthorized => 403u16,
            ClobError::PostOnlyOrderWouldMatch | ClobError::FOKOrderNotFilled => 409u16,
            ClobError::StorageError(_) | ClobError::NetworkError(_) | ClobError::SerializationError(_) => 500u16,
            _ => 400u16,
        },
{
    match e {
        ClobError::OrderNotFound => 404,
        ClobError::Unauthorized => 403,
        ClobError::PostOnlyOrderWouldMatch | ClobError::FOKOrderNotFilled => 409,
        ClobError::StorageError(_) | ClobError::NetworkError(_) | ClobError::SerializationError(_) => 500,
        _ => 400,
    }
}

} // verus!
