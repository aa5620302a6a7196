//! Configuration validation and the live session's event dispatch.

use bookmatch::amount::{check_pairs, AMOUNT_MAX};
use bookmatch::config::{ConfigValidationError, SaifutakuConfig};
use bookmatch::fusion::{FeedEvent, LiveSession};
use bookmatch::messages::{DepthUpdate, SnapShotUpdate, TradeUpdate};
use bookmatch::replay::TradeReadError;

fn config() -> SaifutakuConfig {
    SaifutakuConfig {
        depth_url: String::from("wss://example.invalid/ws/depth"),
        trade_url: String::from("wss://example.invalid/ws/trade"),
        snapshot_url: String::from("https://example.invalid/api/depth"),
        channel_size: 32,
        fetch_interval: 30,
    }
}

#[test]
fn valid_config_passes() {
    assert!(config().validate().is_ok());
}

#[test]
fn bad_snapshot_url_is_rejected() {
    let mut c = config();
    c.snapshot_url = String::from("not a url");
    let e = c.validate().unwrap_err();
    assert_eq!(e.message().as_str(), "Invalid HTTP URL");
}

#[test]
fn bad_depth_url_is_rejected() {
    let mut c = config();
    c.depth_url = String::from("::::");
    let e = c.validate().unwrap_err();
    assert_eq!(e.message().as_str(), "Invalid WebSocket URL");
}

#[test]
fn bad_trade_url_is_rejected() {
    let mut c = config();
    c.trade_url = String::from("");
    let e = c.validate().unwrap_err();
    assert_eq!(e.message().as_str(), "Invalid WebSocket URL");
}

#[test]
fn zero_channel_size_is_rejected() {
    let mut c = config();
    c.channel_size = 0;
    let e = c.validate().unwrap_err();
    assert_eq!(e.message().as_str(), "Channel size must be greater than 0");
}

#[test]
fn zero_fetch_interval_is_rejected() {
    let mut c = config();
    c.fetch_interval = 0;
    let e = c.validate().unwrap_err();
    assert_eq!(e.message().as_str(), "Fetch interval must be greater than 0");
}

#[test]
fn config_error_carries_message() {
    let e = ConfigValidationError::new("boom");
    assert_eq!(e.message().as_str(), "boom");
}

#[test]
fn trade_read_error_carries_message() {
    let e = TradeReadError::new("No more trades to read");
    assert_eq!(e.message().as_str(), "No more trades to read");
}

fn live_trade(id: &str, maker: bool) -> TradeUpdate {
    TradeUpdate {
        event_type: String::from("trade"),
        event_time: 100,
        symbol: String::from("TESTUSD"),
        trade_ids: vec![String::from(id)],
        price: 1000,
        quantity: 5,
        buyer_order_id: 1,
        seller_order_id: 2,
        trade_time: 100,
        is_market_maker: maker,
    }
}

#[test]
fn live_session_dispatches_events() {
    let mut s = LiveSession::new();
    s.handle_event(FeedEvent::Snapshot(SnapShotUpdate {
        last_update_id: 10,
        bids: vec![(1000, 10)],
        asks: vec![(1010, 30)],
    }));
    assert_eq!(s.book().last_update_id(), 10);
    assert_eq!(s.book().bid_quantity(1000), Some(10));
    s.handle_event(FeedEvent::Diff(DepthUpdate {
        event_type: String::from("depthUpdate"),
        event_time: 1000,
        symbol: String::from("TESTUSD"),
        first_update_id_in_event: 11,
        final_update_id_in_event: 12,
        bids_to_update: vec![(1000, 4)],
        asks_to_update: vec![],
    }));
    assert_eq!(s.book().bid_quantity(1000), Some(4));
    assert!(s.book().is_best_bid_updated());
    // the maker-side flag routes a trade to its ladder's matcher
    s.handle_event(FeedEvent::Trade(live_trade("B1", true)));
    s.handle_event(FeedEvent::Trade(live_trade("A1", false)));
    assert_eq!(s.bid_matcher().queue_len(), 1);
    assert_eq!(s.ask_matcher().queue_len(), 1);
}

#[test]
fn check_pairs_accepts_only_in_range_amounts() {
    assert!(check_pairs(&vec![]));
    assert!(check_pairs(&vec![(0, 0), (AMOUNT_MAX, AMOUNT_MAX)]));
    assert!(!check_pairs(&vec![(-1, 5)]));
    assert!(!check_pairs(&vec![(5, AMOUNT_MAX + 1)]));
}
