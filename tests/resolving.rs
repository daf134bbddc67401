use rust_decimal::prelude::ToPrimitive;
use rust_decimal::Decimal;
use trade_cache::aggregate::{count_from_range, Count, QueryType};
use trade_cache::cache::{RangeCache, CACHE_SIZE};
use trade_cache::decimal::Dec;
use trade_cache::fill::{get_fills_api, BackendError, Fill, BUY, MAX_TIMESTAMP, SELL};
use trade_cache::query::Query;
use trade_cache::resolve::{Resolution, ResolveError, Step};
use trade_cache::time_range::TimeRange;

fn fill(time: i64, direction: i32, price: i128, quantity: i128, seq: u64) -> Fill {
    Fill {
        time,
        direction,
        price: Dec { mantissa: price, scale: 0 },
        quantity: Dec { mantissa: quantity, scale: 0 },
        sequence_number: seq,
    }
}

/// Drives a resolution the way the engine does, counting backend lookups.
fn run(query: &Query, cache: &mut RangeCache, backend: &Vec<Fill>, lookups: &mut usize) -> Result<Option<Count>, ResolveError> {
    let mut res = Resolution::new(query).map_err(ResolveError::Backend)?;
    loop {
        match res.advance(cache) {
            Step::Fetch(g) => {
                *lookups += 1;
                let fills = get_fills_api(backend, g.start_timestamp_in_seconds, g.end_timestamp_in_seconds)
                    .map_err(ResolveError::Backend)?;
                res.deliver(cache, fills);
            }
            Step::Done => return Ok(res.finish()),
            Step::Overflowed => return Err(ResolveError::CountOverflow),
        }
    }
}

fn render(c: &Option<Count>) -> String {
    match c {
        None => "0".to_string(),
        Some(Count::Trades(n)) => format!("{}", n),
        Some(Count::Volume(terms)) => {
            let sum: f64 = terms
                .iter()
                .filter_map(|d| Decimal::try_from_i128_with_scale(d.mantissa, d.scale).ok())
                .filter_map(|d| d.to_f64())
                .sum();
            format!("{:.6}", sum)
        }
    }
}

fn query(line: &str) -> Query {
    Query::parse(line).unwrap()
}

fn direct(q: &Query, backend: &Vec<Fill>) -> String {
    if q.range.start_timestamp_in_seconds >= q.range.end_timestamp_in_seconds {
        return "0".to_string();
    }
    let c = count_from_range(q.query_type, backend, q.range);
    render(&Some(c))
}

#[test]
fn example_scenario_volume_trades_buys_and_repeat() {
    let backend = vec![fill(100, BUY, 10, 2, 1)];
    let mut cache = RangeCache::new();
    let mut lookups = 0;
    assert_eq!(render(&run(&query("V 50 150"), &mut cache, &backend, &mut lookups).unwrap()), "20.000000");
    assert_eq!(lookups, 1);
    assert_eq!(render(&run(&query("C 50 150"), &mut cache, &backend, &mut lookups).unwrap()), "1");
    assert_eq!(render(&run(&query("B 50 150"), &mut cache, &backend, &mut lookups).unwrap()), "1");
    assert_eq!(render(&run(&query("V 50 150"), &mut cache, &backend, &mut lookups).unwrap()), "20.000000");
    assert_eq!(lookups, 1);
}

#[test]
fn get_count_answers_the_example_scenario() {
    let backend = vec![fill(100, BUY, 10, 2, 1)];
    let mut cache = RangeCache::new();
    assert_eq!(render(&query("V 50 150").get_count(&mut cache, &backend).unwrap()), "20.000000");
    assert_eq!(render(&query("C 50 150").get_count(&mut cache, &backend).unwrap()), "1");
    assert_eq!(render(&query("B 50 150").get_count(&mut cache, &backend).unwrap()), "1");
    assert_eq!(render(&query("S 50 150").get_count(&mut cache, &backend).unwrap()), "0");
    assert_eq!(render(&query("V 50 150").get_count(&mut cache, &backend).unwrap()), "20.000000");
    assert_eq!(cache.len(), 1);
}

#[test]
fn repeating_a_query_gives_the_same_answer_without_lookups() {
    let backend: Vec<Fill> = (0..40).map(|i| fill(i * 700, if i % 2 == 0 { BUY } else { SELL }, 3, 1, i as u64)).collect();
    let mut cache = RangeCache::new();
    let mut lookups = 0;
    let q = query("C 100 20000");
    let first = render(&run(&q, &mut cache, &backend, &mut lookups).unwrap());
    let after_first = lookups;
    let second = render(&run(&q, &mut cache, &backend, &mut lookups).unwrap());
    assert_eq!(first, second);
    assert_eq!(first, direct(&q, &backend));
    assert_eq!(lookups, after_first);
}

#[test]
fn overlapping_queries_fetch_only_gaps() {
    let backend: Vec<Fill> = (0..30).map(|i| fill(i * 10, BUY, 1, 1, i as u64)).collect();
    let mut cache = RangeCache::new();
    let mut lookups = 0;
    let inner = query("C 100 200");
    assert_eq!(render(&run(&inner, &mut cache, &backend, &mut lookups).unwrap()), "10");
    assert_eq!(lookups, 1);
    let outer = query("C 50 250");
    assert_eq!(render(&run(&outer, &mut cache, &backend, &mut lookups).unwrap()), "20");
    assert_eq!(lookups, 3);
    let before = query("C 20 120");
    assert_eq!(render(&run(&before, &mut cache, &backend, &mut lookups).unwrap()), direct(&before, &backend));
    let after = query("C 220 290");
    assert_eq!(render(&run(&after, &mut cache, &backend, &mut lookups).unwrap()), direct(&after, &backend));
    let contained = query("B 120 180");
    let seen = lookups;
    assert_eq!(render(&run(&contained, &mut cache, &backend, &mut lookups).unwrap()), "6");
    assert_eq!(lookups, seen);
}

#[test]
fn cache_is_transparent_for_mixed_queries() {
    let mut seed: u64 = 7;
    let mut next = move |m: u64| {
        seed = seed.wrapping_mul(6364136223846793005).wrapping_add(1442695040888963407);
        (seed >> 33) % m
    };
    let backend: Vec<Fill> = (0..300)
        .map(|i| {
            let dir = match next(3) {
                0 => BUY,
                1 => SELL,
                _ => 0,
            };
            fill(next(30000) as i64, dir, next(50) as i128 + 1, next(9) as i128 + 1, i as u64)
        })
        .collect();
    let mut cache = RangeCache::new();
    let mut lookups = 0;
    for _ in 0..200 {
        let kind = ["C", "B", "S", "V"][next(4) as usize];
        let a = next(31000) as i64 - 500;
        let b = a + next(12000) as i64 - 1000;
        let q = query(&format!("{} {} {}", kind, a, b));
        let via_cache = render(&run(&q, &mut cache, &backend, &mut lookups).unwrap());
        let expected = direct(&q, &backend);
        if kind == "V" {
            let x: f64 = via_cache.parse().unwrap();
            let y: f64 = expected.parse().unwrap();
            assert!((x - y).abs() < 1e-6, "{} {} {}", q.range.start_timestamp_in_seconds, x, y);
        } else {
            assert_eq!(via_cache, expected);
        }
    }
}

#[test]
fn distinct_trades_add_up_over_disjoint_windows() {
    let backend = vec![fill(10, BUY, 1, 1, 1), fill(10, BUY, 1, 1, 1), fill(20, SELL, 1, 1, 2), fill(4600, BUY, 1, 1, 3)];
    let mut cache = RangeCache::new();
    let mut lookups = 0;
    assert_eq!(render(&run(&query("C 0 15"), &mut cache, &backend, &mut lookups).unwrap()), "1");
    assert_eq!(render(&run(&query("C 15 5000"), &mut cache, &backend, &mut lookups).unwrap()), "2");
    assert_eq!(render(&run(&query("C 0 5000"), &mut cache, &backend, &mut lookups).unwrap()), "3");
}

#[test]
fn empty_window_answers_zero() {
    let backend = vec![fill(10, BUY, 1, 1, 1)];
    let mut cache = RangeCache::new();
    assert!(query("C 10 10").get_count(&mut cache, &backend).unwrap().is_none());
    assert!(query("V 20 10").get_count(&mut cache, &backend).unwrap().is_none());
    assert_eq!(cache.len(), 0);
}

#[test]
fn unrepresentable_bounds_fail_the_query() {
    let backend = vec![fill(10, BUY, 1, 1, 1)];
    let mut cache = RangeCache::new();
    let far = format!("C 0 {}", MAX_TIMESTAMP + 1);
    assert!(matches!(
        query(&far).get_count(&mut cache, &backend),
        Err(ResolveError::Backend(BackendError::InvalidTimestamp))
    ));
    assert!(matches!(
        query("C -9223372036854775808 0").get_count(&mut cache, &backend),
        Err(ResolveError::Backend(BackendError::InvalidTimestamp))
    ));
    assert!(Resolution::new(&query(&far)).is_err());
    assert!(query(&format!("C {} 0", MAX_TIMESTAMP + 5)).get_count(&mut cache, &backend).unwrap().is_none());
}

#[test]
fn eviction_keeps_at_most_cache_size_buckets() {
    let backend: Vec<Fill> = Vec::new();
    let mut cache = RangeCache::new();
    let slot = 4500i64;
    for i in 0..CACHE_SIZE as i64 {
        let q = Query { query_type: QueryType::TakerTrades, range: TimeRange::new(i * slot, i * slot + 10) };
        q.get_count(&mut cache, &backend).unwrap();
    }
    assert_eq!(cache.len(), CACHE_SIZE);
    assert!(cache.contains_slot(0));
    // Use slot 0 again so that slot 4500 becomes the least recently used.
    query("C 0 10").get_count(&mut cache, &backend).unwrap();
    let q = Query {
        query_type: QueryType::TakerTrades,
        range: TimeRange::new(CACHE_SIZE as i64 * slot, CACHE_SIZE as i64 * slot + 10),
    };
    q.get_count(&mut cache, &backend).unwrap();
    assert_eq!(cache.len(), CACHE_SIZE);
    assert!(cache.contains_slot(0));
    assert!(!cache.contains_slot(slot));
    assert!(cache.contains_slot(CACHE_SIZE as i64 * slot));
}

#[test]
fn a_step_to_fetch_repeats_until_delivered() {
    let backend = vec![fill(10, BUY, 1, 1, 1)];
    let mut cache = RangeCache::new();
    let mut res = Resolution::new(&query("C 0 20")).unwrap();
    let first = res.advance(&mut cache);
    assert_eq!(first, Step::Fetch(TimeRange::new(0, 20)));
    assert_eq!(res.advance(&mut cache), first);
    res.deliver(&mut cache, get_fills_api(&backend, 0, 20).unwrap());
    assert_eq!(res.advance(&mut cache), Step::Done);
    assert!(matches!(res.finish(), Some(Count::Trades(1))));
    assert!(cache.contains_slot(0));
}
