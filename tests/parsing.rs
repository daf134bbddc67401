use trade_cache::aggregate::QueryType;
use trade_cache::query::{ParseError, Query, SLOT_SIZE};
use trade_cache::time_range::TimeRange;

fn q(kind: QueryType, start: i64, end: i64) -> Query {
    Query { query_type: kind, range: TimeRange::new(start, end) }
}

#[test]
fn parses_each_kind() {
    assert_eq!(Query::parse("C 1 2"), Ok(q(QueryType::TakerTrades, 1, 2)));
    assert_eq!(Query::parse("B 1 2"), Ok(q(QueryType::MarketBuys, 1, 2)));
    assert_eq!(Query::parse("S 1 2"), Ok(q(QueryType::MarketSells, 1, 2)));
    assert_eq!(Query::parse("V 50 150"), Ok(q(QueryType::TradingVolume, 50, 150)));
}

#[test]
fn parses_with_surrounding_whitespace_and_extra_tokens() {
    assert_eq!(Query::parse("  \tC   -5  +7 trailing words\n"), Ok(q(QueryType::TakerTrades, -5, 7)));
    assert_eq!(Query::parse("V\u{3000}10\u{a0}20"), Ok(q(QueryType::TradingVolume, 10, 20)));
}

#[test]
fn parses_extreme_integers() {
    assert_eq!(
        Query::parse("C -9223372036854775808 9223372036854775807"),
        Ok(q(QueryType::TakerTrades, i64::MIN, i64::MAX))
    );
    assert_eq!(Query::parse("C 0009 -0"), Ok(q(QueryType::TakerTrades, 9, 0)));
}

#[test]
fn reports_each_parse_error() {
    assert_eq!(Query::parse(""), Err(ParseError::MissingKind));
    assert_eq!(Query::parse("   "), Err(ParseError::MissingKind));
    assert_eq!(Query::parse("C"), Err(ParseError::MissingStart));
    assert_eq!(Query::parse("C x 1"), Err(ParseError::InvalidStart));
    assert_eq!(Query::parse("C 1"), Err(ParseError::MissingEnd));
    assert_eq!(Query::parse("C 1 2y"), Err(ParseError::InvalidEnd));
    assert_eq!(Query::parse("X 1 2"), Err(ParseError::UnknownKind));
    assert_eq!(Query::parse("CC 1 2"), Err(ParseError::UnknownKind));
}

#[test]
fn rejects_malformed_numbers() {
    assert_eq!(Query::parse("C 9223372036854775808 1"), Err(ParseError::InvalidStart));
    assert_eq!(Query::parse("C -9223372036854775809 1"), Err(ParseError::InvalidStart));
    assert_eq!(Query::parse("C + 1"), Err(ParseError::InvalidStart));
    assert_eq!(Query::parse("C - 1"), Err(ParseError::InvalidStart));
    assert_eq!(Query::parse("C 1 99999999999999999999999"), Err(ParseError::InvalidEnd));
    assert_eq!(Query::parse("C 1.5 2"), Err(ParseError::InvalidStart));
}

#[test]
fn bad_bounds_are_reported_before_an_unknown_kind() {
    assert_eq!(Query::parse("Z x 1"), Err(ParseError::InvalidStart));
    assert_eq!(Query::parse("Z 1"), Err(ParseError::MissingEnd));
}

#[test]
fn slot_spans_split_on_slot_boundaries() {
    let spans = q(QueryType::TakerTrades, 4000, 9500).time_slots_map();
    assert_eq!(
        spans,
        vec![
            (0, TimeRange::new(4000, 4500)),
            (4500, TimeRange::new(4500, 9000)),
            (9000, TimeRange::new(9000, 9500)),
        ]
    );
    assert_eq!(SLOT_SIZE, 4500);
}

#[test]
fn slot_spans_floor_negative_instants() {
    let spans = q(QueryType::TakerTrades, -100, 10).time_slots_map();
    assert_eq!(spans, vec![(-4500, TimeRange::new(-100, 0)), (0, TimeRange::new(0, 10))]);
}

#[test]
fn slot_spans_of_an_empty_window_are_empty() {
    assert!(q(QueryType::TakerTrades, 10, 10).time_slots_map().is_empty());
    assert!(q(QueryType::TakerTrades, 10, 5).time_slots_map().is_empty());
    assert_eq!(q(QueryType::TakerTrades, 4500, 4501).time_slots_map(), vec![(4500, TimeRange::new(4500, 4501))]);
}
