//! Order-book scenarios: snapshot application, diff application with
//! cascading best-level deltas, sequencing rules, and trade matching.
//!
//! Prices and quantities are scaled integers with one decimal place:
//! `100.0` is written `1000`, `0.4` is written `4`.

use bookmatch::messages::{DepthUpdate, SnapShotUpdate, TradeUpdate};
use bookmatch::orderbook::{OrderBook, SequenceAnomaly};
use bookmatch::trade_matcher::TradeType;

fn depth(e: u64, first: u64, last: u64, bids: Vec<(i128, i128)>, asks: Vec<(i128, i128)>) -> DepthUpdate {
    DepthUpdate {
        event_type: String::from("depthUpdate"),
        event_time: e,
        symbol: String::from("TESTUSD"),
        first_update_id_in_event: first,
        final_update_id_in_event: last,
        bids_to_update: bids,
        asks_to_update: asks,
    }
}

fn snapshot(last: u64, bids: Vec<(i128, i128)>, asks: Vec<(i128, i128)>) -> SnapShotUpdate {
    SnapShotUpdate { last_update_id: last, bids, asks }
}

fn trade(id: &str, e: u64, price: i128, qty: i128) -> TradeUpdate {
    TradeUpdate {
        event_type: String::from("trade"),
        event_time: e,
        symbol: String::from("TESTUSD"),
        trade_ids: vec![String::from(id)],
        price,
        quantity: qty,
        buyer_order_id: 1,
        seller_order_id: 2,
        trade_time: e,
        is_market_maker: false,
    }
}

fn book_after_s1() -> OrderBook {
    let mut book = OrderBook::new();
    book.update_with_snapshot(snapshot(
        10,
        vec![(1000, 10), (990, 20)],
        vec![(1010, 30), (1020, 10)],
    ));
    book.update(depth(1000, 11, 12, vec![(1000, 4)], vec![]));
    book
}

#[test]
fn snapshot_then_clean_diff() {
    let book = book_after_s1();
    assert!(book.is_best_bid_updated());
    assert!(!book.is_best_ask_updated());
    assert_eq!(book.bid_quantity(1000), Some(4));
    assert_eq!(book.bid_quantity(990), Some(20));
    let deltas = book.bid_deltas();
    assert_eq!(deltas.len(), 1);
    assert_eq!(deltas[0].price(), 1000);
    assert_eq!(deltas[0].volume(), 6);
    assert_eq!(deltas[0].event_time(), 1000);
    assert!(book.ask_deltas().is_empty());
}

#[test]
fn cascading_removal() {
    let mut book = book_after_s1();
    book.update(depth(2000, 13, 14, vec![(1000, 0), (990, 15)], vec![]));
    assert!(book.is_best_bid_updated());
    let deltas = book.bid_deltas();
    assert_eq!(deltas.len(), 2);
    assert_eq!(deltas[0].price(), 1000);
    assert_eq!(deltas[0].volume(), 4);
    assert_eq!(deltas[1].price(), 990);
    assert_eq!(deltas[1].volume(), 5);
    // the zeroed price is gone, the rewritten one holds the new quantity
    assert_eq!(book.bid_quantity(1000), None);
    assert_eq!(book.bid_quantity(990), Some(15));
}

#[test]
fn diff_before_snapshot_is_noop() {
    let mut book = OrderBook::new();
    book.update(depth(1000, 1, 2, vec![(1000, 5)], vec![(1010, 5)]));
    assert_eq!(book.last_update_id(), 0);
    assert_eq!(book.bid_quantity(1000), None);
    assert_eq!(book.ask_quantity(1010), None);
    assert!(!book.is_best_bid_updated());
    assert!(book.bid_deltas().is_empty());
}

#[test]
fn superseded_diff_is_noop() {
    let mut book = book_after_s1();
    // final id 9 does not exceed the snapshot id 10: nothing changes
    book.update(depth(3000, 8, 9, vec![(990, 1)], vec![]));
    assert_eq!(book.bid_quantity(990), Some(20));
    // the flags still show the previous diff's effect
    assert!(book.is_best_bid_updated());
    assert_eq!(book.bid_deltas().len(), 1);
}

#[test]
fn untouched_best_emits_nothing() {
    let mut book = book_after_s1();
    book.update(depth(2000, 13, 14, vec![(990, 25)], vec![]));
    assert!(!book.is_best_bid_updated());
    assert!(book.bid_deltas().is_empty());
    assert_eq!(book.bid_quantity(990), Some(25));
}

#[test]
fn ask_side_best_is_least_price() {
    let mut book = OrderBook::new();
    book.update_with_snapshot(snapshot(
        10,
        vec![(1000, 10)],
        vec![(1010, 30), (1020, 10)],
    ));
    book.update(depth(1000, 11, 12, vec![], vec![(1010, 7)]));
    assert!(book.is_best_ask_updated());
    let deltas = book.ask_deltas();
    assert_eq!(deltas.len(), 1);
    assert_eq!(deltas[0].price(), 1010);
    assert_eq!(deltas[0].volume(), 23);
    assert_eq!(book.ask_quantity(1010), Some(7));
}

#[test]
fn trade_match_returns_event_time_and_consumes_delta() {
    let mut book = book_after_s1();
    // best-bid delta is (1000, 6, 1000)
    let t = trade("T1", 1050, 1000, 6);
    let r = book.match_and_process_trade(&t, TradeType::Bid);
    assert_eq!(r, 1000);
    assert_eq!(book.bid_deltas()[0].volume(), 0);
    // the same trade again finds no equal delta: retry
    let r2 = book.match_and_process_trade(&t, TradeType::Bid);
    assert_eq!(r2, 0);
}

#[test]
fn stale_trade_is_dropped() {
    let mut book = OrderBook::new();
    book.update_with_snapshot(snapshot(10, vec![(1000, 10)], vec![(1010, 30)]));
    // delta event time 2000, trade event time 1000: 2000 > 1000 + 100
    book.update(depth(2000, 11, 12, vec![(1000, 4)], vec![]));
    let t = trade("T1", 1000, 1000, 6);
    let r = book.match_and_process_trade(&t, TradeType::Bid);
    assert_eq!(r, 1);
}

#[test]
fn no_match_returns_zero() {
    let mut book = book_after_s1();
    let t = trade("T1", 1050, 1000, 5);
    assert_eq!(book.match_and_process_trade(&t, TradeType::Bid), 0);
}

#[test]
fn snapshot_replaces_previous_book() {
    let mut book = book_after_s1();
    book.update_with_snapshot(snapshot(20, vec![(900, 1)], vec![(910, 2)]));
    assert_eq!(book.last_update_id(), 20);
    assert_eq!(book.bid_quantity(1000), None);
    assert_eq!(book.bid_quantity(900), Some(1));
    assert_eq!(book.ask_quantity(910), Some(2));
}

#[test]
fn level_listing_matches_lookups() {
    let book = book_after_s1();
    let mut bids = book.bid_levels();
    bids.sort();
    assert_eq!(bids, vec![(990, 20), (1000, 4)]);
    let mut asks = book.ask_levels();
    asks.sort();
    assert_eq!(asks, vec![(1010, 30), (1020, 10)]);
}

#[test]
fn sequence_anomaly_classification() {
    let mut book = OrderBook::new();
    // before any snapshot: every diff is a no-op, no anomaly
    assert_eq!(book.sequence_anomaly(&depth(1, 15, 16, vec![], vec![])), None);
    book.update_with_snapshot(snapshot(10, vec![(1000, 10)], vec![(1010, 30)]));
    // first diff after the snapshot, starting past id 11: the snapshot was stale
    assert_eq!(
        book.sequence_anomaly(&depth(1, 15, 16, vec![], vec![])),
        Some(SequenceAnomaly::StaleSnapshot)
    );
    // a superseded diff raises nothing
    assert_eq!(book.sequence_anomaly(&depth(1, 8, 9, vec![], vec![])), None);
    // a continuous first diff raises nothing
    assert_eq!(book.sequence_anomaly(&depth(1, 11, 12, vec![], vec![])), None);
    book.update(depth(1000, 11, 12, vec![(1000, 4)], vec![]));
    // the next diff must start at 13
    assert_eq!(
        book.sequence_anomaly(&depth(1, 14, 15, vec![], vec![])),
        Some(SequenceAnomaly::Gap)
    );
    assert_eq!(book.sequence_anomaly(&depth(1, 13, 14, vec![], vec![])), None);
}
