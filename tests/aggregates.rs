use trade_cache::aggregate::{
    count_from_range, filter_fills, market_buys, market_sells, taker_trades, trading_volume, Count, QueryType,
};
use trade_cache::decimal::Dec;
use trade_cache::fill::{get_fills_api, BackendError, Fill, BUY, MAX_TIMESTAMP, MIN_TIMESTAMP, SELL};
use trade_cache::time_range::TimeRange;

fn dec(mantissa: i128, scale: u32) -> Dec {
    Dec { mantissa, scale }
}

fn fill(time: i64, direction: i32, seq: u64) -> Fill {
    Fill { time, direction, price: dec(10, 0), quantity: dec(2, 0), sequence_number: seq }
}

fn sample() -> Vec<Fill> {
    vec![
        fill(100, BUY, 1),
        fill(100, BUY, 1),
        fill(150, SELL, 2),
        fill(200, 0, 3),
        fill(201, BUY, 4),
        fill(50, SELL, 5),
    ]
}

#[test]
fn taker_trades_counts_distinct_sequence_numbers_in_window() {
    let fills = sample();
    assert_eq!(taker_trades(&fills, TimeRange::new(50, 200)), 3);
    assert_eq!(taker_trades(&fills, TimeRange::new(49, 201)), 5);
    assert_eq!(taker_trades(&fills, TimeRange::new(100, 150)), 1);
    assert_eq!(taker_trades(&fills, TimeRange::new(300, 400)), 0);
    assert_eq!(taker_trades(&[], TimeRange::new(0, 1000)), 0);
}

#[test]
fn buys_and_sells_filter_by_direction() {
    let fills = sample();
    assert_eq!(market_buys(&fills, TimeRange::new(0, 1000)), 2);
    assert_eq!(market_sells(&fills, TimeRange::new(0, 1000)), 2);
    assert_eq!(market_sells(&fills, TimeRange::new(50, 1000)), 1);
    assert_eq!(filter_fills(&fills, TimeRange::new(0, 1000), QueryType::TakerTrades), 5);
}

#[test]
fn trading_volume_keeps_every_fill_without_dedup() {
    let fills = sample();
    let v = trading_volume(&fills, TimeRange::new(50, 150));
    assert_eq!(v, vec![dec(20, 0), dec(20, 0), dec(20, 0)]);
}

#[test]
fn trading_volume_multiplies_price_and_quantity() {
    let fills = vec![Fill { time: 10, direction: BUY, price: dec(15, 1), quantity: dec(3, 0), sequence_number: 9 }];
    assert_eq!(trading_volume(&fills, TimeRange::new(0, 10)), vec![dec(45, 1)]);
}

#[test]
fn trading_volume_skips_a_product_that_cannot_be_formed() {
    let huge = dec((1i128 << 95) + 1, 0);
    let fills = vec![
        Fill { time: 10, direction: BUY, price: huge, quantity: huge, sequence_number: 1 },
        Fill { time: 11, direction: BUY, price: dec(1, 0), quantity: dec(1i128 << 100, 0), sequence_number: 2 },
        Fill { time: 12, direction: BUY, price: dec(3, 0), quantity: dec(4, 0), sequence_number: 3 },
    ];
    assert_eq!(trading_volume(&fills, TimeRange::new(0, 20)), vec![dec(12, 0)]);
}

#[test]
fn count_from_range_dispatches_on_kind() {
    let fills = sample();
    let r = TimeRange::new(0, 1000);
    assert!(matches!(count_from_range(QueryType::TakerTrades, &fills, r), Count::Trades(5)));
    assert!(matches!(count_from_range(QueryType::MarketBuys, &fills, r), Count::Trades(2)));
    assert!(matches!(count_from_range(QueryType::MarketSells, &fills, r), Count::Trades(2)));
    match count_from_range(QueryType::TradingVolume, &fills, r) {
        Count::Volume(v) => assert_eq!(v.len(), 6),
        Count::Trades(_) => panic!("volume expected"),
    }
}

#[test]
fn counts_merge_by_kind() {
    let mut a = Count::Trades(2);
    a.add(Count::Trades(3));
    assert!(matches!(a, Count::Trades(5)));
    let mut v = Count::Volume(vec![dec(1, 0)]);
    v.add(Count::Volume(vec![dec(2, 0), dec(3, 1)]));
    match v {
        Count::Volume(t) => assert_eq!(t, vec![dec(1, 0), dec(2, 0), dec(3, 1)]),
        Count::Trades(_) => panic!("volume expected"),
    }
}

#[test]
fn backend_returns_fills_in_half_open_window() {
    let fills = sample();
    let got = get_fills_api(&fills, 100, 200).unwrap();
    let seqs: Vec<u64> = got.iter().map(|f| f.sequence_number).collect();
    assert_eq!(seqs, vec![2, 3]);
    assert!(get_fills_api(&fills, 200, 100).unwrap().is_empty());
}

#[test]
fn backend_refuses_unrepresentable_instants() {
    let fills = sample();
    assert_eq!(get_fills_api(&fills, MIN_TIMESTAMP - 1, 0), Err(BackendError::InvalidTimestamp));
    assert_eq!(get_fills_api(&fills, 0, MAX_TIMESTAMP + 1), Err(BackendError::InvalidTimestamp));
    assert!(get_fills_api(&fills, MIN_TIMESTAMP, MAX_TIMESTAMP).is_ok());
    assert_eq!(get_fills_api(&fills, MIN_TIMESTAMP, MAX_TIMESTAMP).unwrap().len(), 6);
}
