//! Trade-matcher scenarios: queue matching, purge, timestamp groups,
//! replay coalescing, and the terminal cleanup of the outcome table.

use bookmatch::messages::{DepthUpdate, SnapShotUpdate, TradeUpdate};
use bookmatch::orderbook::OrderBook;
use bookmatch::replay::PreviousTradeInfo;
use bookmatch::replay::coalesce_trade;
use bookmatch::trade_matcher::{TradeMatcher, TradeType};

fn depth(e: u64, first: u64, last: u64, bids: Vec<(i128, i128)>, asks: Vec<(i128, i128)>) -> DepthUpdate {
    DepthUpdate {
        event_type: String::from("depthUpdate"),
        event_time: e,
        symbol: String::from("TESTUSD"),
        first_update_id_in_event: first,
        final_update_id_in_event: last,
        bids_to_update: bids,
        asks_to_update: asks,
    }
}

fn snapshot(last: u64, bids: Vec<(i128, i128)>, asks: Vec<(i128, i128)>) -> SnapShotUpdate {
    SnapShotUpdate { last_update_id: last, bids, asks }
}

fn trade(id: &str, e: u64, price: i128, qty: i128) -> TradeUpdate {
    TradeUpdate {
        event_type: String::from("trade"),
        event_time: e,
        symbol: String::from("TESTUSD"),
        trade_ids: vec![String::from(id)],
        price,
        quantity: qty,
        buyer_order_id: 1,
        seller_order_id: 2,
        trade_time: e,
        is_market_maker: false,
    }
}

fn sorted_results(m: &TradeMatcher) -> Vec<(String, u64, u64)> {
    let mut v: Vec<(String, u64, u64)> = m
        .results()
        .iter()
        .map(|r| (r.trade_id().clone(), r.trade_event_time(), r.outcome_event_time()))
        .collect();
    v.sort();
    v
}

#[test]
fn matched_trade_leaves_queue_and_is_recorded() {
    let mut book = OrderBook::new();
    book.update_with_snapshot(snapshot(10, vec![(1000, 10)], vec![(1010, 30)]));
    book.update(depth(5000, 11, 12, vec![(1000, 4)], vec![]));
    let mut m = TradeMatcher::new(TradeType::Bid);
    m.add_trade(trade("T1", 4950, 1000, 6));
    let events = m.match_trades(&mut book);
    assert_eq!(events, vec![5000]);
    assert_eq!(m.queue_len(), 0);
    assert_eq!(
        sorted_results(&m),
        vec![(String::from("T1"), 4950, 5000)]
    );
}

#[test]
fn unmatched_trade_stays_queued() {
    let mut book = OrderBook::new();
    book.update_with_snapshot(snapshot(10, vec![(1000, 10)], vec![(1010, 30)]));
    book.update(depth(5000, 11, 12, vec![(1000, 4)], vec![]));
    let mut m = TradeMatcher::new(TradeType::Bid);
    m.add_trade(trade("T1", 4950, 1000, 9));
    let events = m.match_trades(&mut book);
    assert!(events.is_empty());
    assert_eq!(m.queue_len(), 1);
    assert!(m.results().is_empty());
}

#[test]
fn stale_trade_is_dropped_and_recorded() {
    let mut book = OrderBook::new();
    book.update_with_snapshot(snapshot(10, vec![(1000, 10)], vec![(1010, 30)]));
    book.update(depth(5000, 11, 12, vec![(1000, 4)], vec![]));
    let mut m = TradeMatcher::new(TradeType::Bid);
    m.add_trade(trade("OLD", 1000, 1000, 6));
    let events = m.match_trades(&mut book);
    assert!(events.is_empty());
    assert_eq!(m.queue_len(), 0);
    assert_eq!(
        sorted_results(&m),
        vec![(String::from("OLD"), 1000, 1)]
    );
}

#[test]
fn purge_records_remaining_trades() {
    let mut m = TradeMatcher::new(TradeType::Ask);
    m.add_trade(trade("X", 777, 1000, 5));
    m.purge();
    m.clean_trade_results();
    assert_eq!(m.queue_len(), 0);
    assert_eq!(sorted_results(&m), vec![(String::from("X"), 777, 2)]);
}

#[test]
fn number_of_timestamps_counts_runs() {
    let mut m = TradeMatcher::new(TradeType::Bid);
    assert_eq!(m.number_of_timestamps(), 0);
    m.add_trade(trade("A", 5, 1000, 1));
    m.add_trade(trade("B", 5, 1000, 1));
    m.add_trade(trade("C", 7, 1000, 1));
    m.add_trade(trade("D", 5, 1000, 1));
    assert_eq!(m.number_of_timestamps(), 3);
}

#[test]
fn number_of_timestamps_counts_leading_zero_run() {
    // an event time of 0 opens a run like any other value
    let mut m = TradeMatcher::new(TradeType::Bid);
    m.add_trade(trade("A", 0, 1000, 1));
    m.add_trade(trade("B", 3, 1000, 1));
    assert_eq!(m.number_of_timestamps(), 2);
}

#[test]
fn replay_coalescing_merges_same_time_same_price() {
    let mut prev = PreviousTradeInfo::new();
    let mut a = trade("A", 4950, 1000, 2);
    coalesce_trade(&mut a, &mut prev);
    assert_eq!(a.quantity, 2);
    assert_eq!(a.trade_ids, vec![String::from("A")]);
    let mut b = trade("B", 4950, 1000, 3);
    coalesce_trade(&mut b, &mut prev);
    assert_eq!(b.quantity, 5);
    assert_eq!(b.trade_ids, vec![String::from("B"), String::from("A")]);
    assert_eq!(prev.prev_quantity, 5);
    assert_eq!(prev.prev_event_time, 4950);
}

#[test]
fn coalescing_skips_different_price() {
    let mut prev = PreviousTradeInfo::new();
    let mut a = trade("A", 4950, 1000, 2);
    coalesce_trade(&mut a, &mut prev);
    let mut b = trade("B", 4950, 1010, 3);
    coalesce_trade(&mut b, &mut prev);
    assert_eq!(b.quantity, 3);
    assert_eq!(b.trade_ids, vec![String::from("B")]);
    assert_eq!(prev.prev_price, 1010);
}

#[test]
fn coalesced_match_records_both_ids() {
    let mut book = OrderBook::new();
    book.update_with_snapshot(snapshot(10, vec![(1000, 10)], vec![(1010, 30)]));
    book.update(depth(5000, 11, 12, vec![(1000, 5)], vec![]));
    let mut prev = PreviousTradeInfo::new();
    let mut a = trade("A", 4950, 1000, 2);
    coalesce_trade(&mut a, &mut prev);
    let mut b = trade("B", 4950, 1000, 3);
    coalesce_trade(&mut b, &mut prev);
    let mut m = TradeMatcher::new(TradeType::Bid);
    m.add_trade(b);
    let events = m.match_trades(&mut book);
    assert_eq!(events, vec![5000]);
    m.clean_trade_results();
    assert_eq!(
        sorted_results(&m),
        vec![
            (String::from("A"), 4950, 5000),
            (String::from("B"), 4950, 5000),
        ]
    );
}

#[test]
fn clean_keeps_matched_id_with_greatest_outcome() {
    let mut book = OrderBook::new();
    book.update_with_snapshot(snapshot(10, vec![(1000, 10)], vec![(1010, 30)]));
    book.update(depth(5000, 11, 12, vec![(1000, 4)], vec![]));
    let mut m = TradeMatcher::new(TradeType::Bid);
    // first pass: the trade matches at event 5000
    m.add_trade(trade("M", 4950, 1000, 6));
    let events = m.match_trades(&mut book);
    assert_eq!(events, vec![5000]);
    // the same id comes again and is purged at shutdown
    m.add_trade(trade("M", 4951, 1000, 6));
    m.purge();
    assert_eq!(sorted_results(&m).len(), 2);
    m.clean_trade_results();
    assert_eq!(sorted_results(&m), vec![(String::from("M"), 4950, 5000)]);
}

#[test]
fn clean_drops_id_recorded_only_as_dropped_or_purged() {
    let mut book = OrderBook::new();
    book.update_with_snapshot(snapshot(10, vec![(1000, 10)], vec![(1010, 30)]));
    book.update(depth(5000, 11, 12, vec![(1000, 4)], vec![]));
    let mut m = TradeMatcher::new(TradeType::Bid);
    // stale: recorded with outcome 1
    m.add_trade(trade("D", 1000, 1000, 6));
    m.match_trades(&mut book);
    // purged: the same id recorded with outcome 2
    m.add_trade(trade("D", 1001, 1000, 6));
    m.purge();
    assert_eq!(sorted_results(&m).len(), 2);
    m.clean_trade_results();
    assert!(m.results().is_empty());
}

#[test]
fn clean_keeps_singletons() {
    let mut m = TradeMatcher::new(TradeType::Bid);
    m.add_trade(trade("S", 42, 1000, 1));
    m.purge();
    m.clean_trade_results();
    assert_eq!(sorted_results(&m), vec![(String::from("S"), 42, 2)]);
}

#[test]
fn duplicate_rows_collapse_before_counting() {
    // the same id purged twice with identical timestamps yields one row,
    // which then survives as a singleton
    let mut m = TradeMatcher::new(TradeType::Bid);
    m.add_trade(trade("R", 60, 1000, 1));
    m.purge();
    m.add_trade(trade("R", 60, 1000, 1));
    m.purge();
    assert_eq!(sorted_results(&m).len(), 1);
    m.clean_trade_results();
    assert_eq!(sorted_results(&m), vec![(String::from("R"), 60, 2)]);
}
