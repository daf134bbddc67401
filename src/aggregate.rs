//! What a query asks for, and the aggregates over a slice of fills.

use vstd::prelude::*;
use crate::decimal::{checked_product, decimal_product, Dec};
use crate::fill::{Fill, BUY, SELL};
use crate::time_range::TimeRange;

verus! {

broadcast use vstd::std_specs::hash::group_hash_axioms;

/// The statistic a query asks for.
#[derive(Clone, Copy, Debug, PartialEq, Eq, Structural)]
pub enum QueryType {
    /// Distinct fills, whatever their direction.
    TakerTrades,
    /// Distinct fills that were market buys.
    MarketBuys,
    /// Distinct fills that were market sells.
    MarketSells,
    /// The traded notional, `price * quantity` summed over the fills.
    TradingVolume,
}

/// Whether a fill takes part in the statistic `kind`.
pub open spec fn counts_for(kind: QueryType, f: Fill) -> bool {
    match kind {
        QueryType::MarketBuys => f.direction == BUY,
        QueryType::MarketSells => f.direction == SELL,
        _ => true,
    }
}

/// The sequence numbers of the fills of `d` at an instant of `times` that
/// `kind` counts.
pub open spec fn trade_ids(d: Seq<Fill>, kind: QueryType, times: Set<int>) -> Set<u64> {
    Set::new(
        |n: u64|
            exists|i: int|
                0 <= i < d.len() && times.contains(#[trigger] d[i].time as int) && counts_for(kind, d[i])
                    && d[i].sequence_number == n,
    )
}

/// The notional of each fill of `d` at an instant of `times`, in the order of
/// `d`; a fill whose product cannot be formed is left out.
pub open spec fn volume_terms(d: Seq<Fill>, times: Set<int>) -> Seq<Dec>
    decreases d.len(),
{
    if d.len() == 0 {
        Seq::empty()
    } else {
        let rest = volume_terms(d.drop_last(), times);
        let f = d.last();
        if times.contains(f.time as int) && decimal_product(f.price, f.quantity) is Some {
            rest.push(decimal_product(f.price, f.quantity)->0)
        } else {
            rest
        }
    }
}

/// The value of a query: a number of trades, or the notionals of a volume,
/// kept as terms so that the caller sums them in its own arithmetic.
#[derive(Debug)]
pub enum Count {
    Trades(usize),
    Volume(Vec<Dec>),
}

impl Count {
    pub open spec fn is_trades(self) -> bool {
        self is Trades
    }

    /// The number of trades; zero for a volume.
    pub open spec fn trades(self) -> nat {
        match self {
            Count::Trades(n) => n as nat,
            Count::Volume(_) => 0,
        }
    }

    /// The notional terms; empty for a number of trades.
    pub open spec fn terms(self) -> Seq<Dec> {
        match self {
            Count::Trades(_) => Seq::empty(),
            Count::Volume(v) => v@,
        }
    }

    /// Merges `other` into this count: trades add up, volume terms are appended.
    /// Both must be of the same kind.
    pub fn add(&mut self, other: Count)
        requires
            old(self).is_trades() == other.is_trades(),
            old(self).trades() + other.trades() <= usize::MAX,
        ensures
            final(self).is_trades() == old(self).is_trades(),
            final(self).trades() == old(self).trades() + other.trades(),
            final(self).terms() == old(self).terms() + other.terms(),
    {
        match self {
            Count::Trades(a) => {
                if let Count::Trades(b) = other {
                    *a = *a + b;
                }
            },
            Count::Volume(a) => {
                if let Count::Volume(mut b) = other {
                    a.append(&mut b);
                }
            },
        }
    }
}

/// The number of distinct sequence numbers among the fills in `range` that
/// `kind` counts.
pub fn filter_fills(fills: &[Fill], range: TimeRange, kind: QueryType) -> (r: usize)
    ensures
        r == trade_ids(fills@, kind, range.times()).len(),
{
    let mut seen: std::collections::HashSet<u64> = std::collections::HashSet::new();
    let mut i: usize = 0;
    while i < fills.len()
        invariant
            i <= fills.len(),
            seen@ == trade_ids(fills@.take(i as int), kind, range.times()),
        decreases fills.len() - i,
    {
        let f = fills[i];
        let hit = range.start_timestamp_in_seconds < f.time && f.time <= range.end_timestamp_in_seconds
            && match kind {
            QueryType::MarketBuys => f.direction == BUY,
            QueryType::MarketSells => f.direction == SELL,
            _ => true,
        };
        let ghost before = trade_ids(fills@.take(i as int), kind, range.times());
        let ghost pre = fills@.take(i as int);
        let ghost post = fills@.take(i + 1);
        if hit {
            seen.insert(f.sequence_number);
        }
        proof {
            assert forall|j: int| 0 <= j < i implies post[j] == pre[j] by {}
            assert(post[i as int] == f);
            if hit {
                assert(trade_ids(post, kind, range.times()) =~= before.insert(f.sequence_number));
            } else {
                assert(trade_ids(post, kind, range.times()) =~= before);
            }
        }
        i = i + 1;
    }
    proof {
        assert(fills@.take(fills.len() as int) =~= fills@);
    }
    seen.len()
}

/// Distinct fills in `range`.
pub fn taker_trades(fills: &[Fill], range: TimeRange) -> (r: usize)
    ensures
        r == trade_ids(fills@, QueryType::TakerTrades, range.times()).len(),
{
    filter_fills(fills, range, QueryType::TakerTrades)
}

/// Distinct market buys in `range`.
pub fn market_buys(fills: &[Fill], range: TimeRange) -> (r: usize)
    ensures
        r == trade_ids(fills@, QueryType::MarketBuys, range.times()).len(),
{
    filter_fills(fills, range, QueryType::MarketBuys)
}

/// Distinct market sells in `range`.
pub fn market_sells(fills: &[Fill], range: TimeRange) -> (r: usize)
    ensures
        r == trade_ids(fills@, QueryType::MarketSells, range.times()).len(),
{
    filter_fills(fills, range, QueryType::MarketSells)
}

/// The notional `price * quantity` of each fill in `range`, in stored order,
/// without deduplication; a fill whose product overflows is skipped.
pub fn trading_volume(fills: &[Fill], range: TimeRange) -> (r: Vec<Dec>)
    ensures
        r@ == volume_terms(fills@, range.times()),
{
    let mut out: Vec<Dec> = Vec::new();
    let mut i: usize = 0;
    while i < fills.len()
        invariant
            i <= fills.len(),
            out@ == volume_terms(fills@.take(i as int), range.times()),
        decreases fills.len() - i,
    {
        let f = fills[i];
        proof {
            assert(fills@.take(i + 1).drop_last() =~= fills@.take(i as int));
            assert(fills@.take(i + 1).last() == f);
        }
        if range.start_timestamp_in_seconds < f.time && f.time <= range.end_timestamp_in_seconds {
            if let Some(p) = checked_product(f.price, f.quantity) {
                out.push(p);
            }
        }
        i = i + 1;
    }
    proof {
        assert(fills@.take(fills.len() as int) =~= fills@);
    }
    out
}

/// The value of a `kind` query over the fills of `fills` in `range`.
pub open spec fn count_matches(c: Count, kind: QueryType, d: Seq<Fill>, times: Set<int>) -> bool {
    if kind == QueryType::TradingVolume {
        !c.is_trades() && c.terms() == volume_terms(d, times)
    } else {
        c.is_trades() && c.trades() == trade_ids(d, kind, times).len()
    }
}

/// The statistic `kind` over the fills of `fills` in `range`.
pub fn count_from_range(kind: QueryType, fills: &[Fill], range: TimeRange) -> (r: Count)
    ensures
        count_matches(r, kind, fills@, range.times()),
{
    match kind {
        QueryType::TradingVolume => Count::Volume(trading_volume(fills, range)),
        QueryType::MarketBuys => Count::Trades(market_buys(fills, range)),
        QueryType::MarketSells => Count::Trades(market_sells(fills, range)),
        QueryType::TakerTrades => Count::Trades(taker_trades(fills, range)),
    }
}

} // verus!
