//! The live driver's decisions: one tagged event type for the three feeds
//! and a session that dispatches each event into the book or a matcher.
//! The surrounding loop — channels, sockets, shutdown — performs no logic
//! of its own: it only turns wire messages into [`FeedEvent`] values and
//! hands them here.

use vstd::prelude::*;

use crate::messages::{DepthUpdate, SnapShotUpdate, TradeUpdate};
use crate::orderbook::{apply_side, max_price_of, min_price_of, OrderBook};
use crate::trade_matcher::{TradeMatcher, TradeType};

verus! {

/// One message from any of the three live feeds.
pub enum FeedEvent {
    Snapshot(SnapShotUpdate),
    Diff(DepthUpdate),
    Trade(TradeUpdate),
}

impl FeedEvent {
    /// The book's contracts admit the event's prices and quantities.
    pub open spec fn wf(&self) -> bool {
        match self {
            FeedEvent::Snapshot(s) => s.wf(),
            FeedEvent::Diff(d) => d.wf(),
            FeedEvent::Trade(_) => true,
        }
    }
}

/// The side whose resting liquidity a live trade consumed: when the
/// market maker was the buyer, the trade hit the bid ladder.
pub open spec fn spec_trade_side(t: &TradeUpdate) -> TradeType {
    if t.is_market_maker {
        TradeType::Bid
    } else {
        TradeType::Ask
    }
}

pub fn trade_side(t: &TradeUpdate) -> (r: TradeType)
    ensures
        r == spec_trade_side(t),
{
    if t.is_market_maker {
        TradeType::Bid
    } else {
        TradeType::Ask
    }
}

/// The state the live driver owns: the book and one matcher per side.
/// Live trades are recorded into their side's queue and not matched;
/// reconciliation over the queues stays available through the matchers.
pub struct LiveSession {
    book: OrderBook,
    bid_matcher: TradeMatcher,
    ask_matcher: TradeMatcher,
}

impl LiveSession {
    pub closed spec fn wf(&self) -> bool {
        &&& self.book.wf()
        &&& self.bid_matcher.wf()
        &&& self.ask_matcher.wf()
        &&& self.bid_matcher.spec_trade_type() == TradeType::Bid
        &&& self.ask_matcher.spec_trade_type() == TradeType::Ask
    }

    pub closed spec fn spec_book(&self) -> OrderBook {
        self.book
    }

    pub closed spec fn spec_bid_matcher(&self) -> TradeMatcher {
        self.bid_matcher
    }

    pub closed spec fn spec_ask_matcher(&self) -> TradeMatcher {
        self.ask_matcher
    }

    pub fn new() -> (r: Self)
        ensures
            r.wf(),
            r.spec_book().spec_last_update_id() == 0,
            r.spec_bid_matcher().spec_queue() == Seq::<TradeUpdate>::empty(),
            r.spec_ask_matcher().spec_queue() == Seq::<TradeUpdate>::empty(),
            r.spec_bid_matcher().spec_results() == Seq::<(Seq<char>, int, int)>::empty(),
            r.spec_ask_matcher().spec_results() == Seq::<(Seq<char>, int, int)>::empty(),
    {
        Self {
            book: OrderBook::new(),
            bid_matcher: TradeMatcher::new(TradeType::Bid),
            ask_matcher: TradeMatcher::new(TradeType::Ask),
        }
    }

    pub fn book(&self) -> (r: &OrderBook)
        ensures
            r == self.spec_book(),
    {
        &self.book
    }

    pub fn bid_matcher(&self) -> (r: &TradeMatcher)
        ensures
            r == self.spec_bid_matcher(),
    {
        &self.bid_matcher
    }

    pub fn ask_matcher(&self) -> (r: &TradeMatcher)
        ensures
            r == self.spec_ask_matcher(),
    {
        &self.ask_matcher
    }

    /// Dispatches one live event: a snapshot replaces the book, a diff is
    /// applied to it, and a trade is queued on its side's matcher.
    pub fn handle_event(&mut self, event: FeedEvent)
        requires
            old(self).wf(),
            event.wf(),
        ensures
            final(self).wf(),
            (match event {
                FeedEvent::Snapshot(s) => {
                    &&& final(self).spec_book().spec_last_update_id() == s.last_update_id
                    &&& final(self).spec_book().spec_bids()
                        == crate::orderbook::snapshot_map(s.bids@)
                    &&& final(self).spec_book().spec_asks()
                        == crate::orderbook::snapshot_map(s.asks@)
                    &&& final(self).spec_bid_matcher() == old(self).spec_bid_matcher()
                    &&& final(self).spec_ask_matcher() == old(self).spec_ask_matcher()
                },
                FeedEvent::Diff(d) => {
                    &&& (old(self).spec_book().spec_last_update_id() == 0
                        || d.final_update_id_in_event
                        <= old(self).spec_book().spec_last_update_id()) ==> final(self).spec_book() == old(self).spec_book()
                    &&& (old(self).spec_book().spec_last_update_id() != 0
                        && d.final_update_id_in_event
                        > old(self).spec_book().spec_last_update_id()) ==> ({
                        let bout = apply_side(
                            old(self).spec_book().spec_bids(),
                            max_price_of(old(self).spec_book().spec_bids()),
                            d.bids_to_update@,
                            false,
                            d.event_time as int,
                        );
                        let aout = apply_side(
                            old(self).spec_book().spec_asks(),
                            min_price_of(old(self).spec_book().spec_asks()),
                            d.asks_to_update@,
                            false,
                            d.event_time as int,
                        );
                        &&& final(self).spec_book().spec_bids() == bout.ladder
                        &&& final(self).spec_book().spec_asks() == aout.ladder
                        &&& final(self).spec_book().spec_bid_deltas() == bout.deltas
                        &&& final(self).spec_book().spec_ask_deltas() == aout.deltas
                        &&& final(self).spec_book().spec_best_bid_updated() == bout.updated
                        &&& final(self).spec_book().spec_best_ask_updated() == aout.updated
                        &&& final(self).spec_book().spec_first_update_id()
                            == d.first_update_id_in_event
                        &&& final(self).spec_book().spec_final_update_id()
                            == d.final_update_id_in_event
                    })
                    &&& final(self).spec_book().spec_last_update_id() == old(self).spec_book().spec_last_update_id()
                    &&& final(self).spec_bid_matcher() == old(self).spec_bid_matcher()
                    &&& final(self).spec_ask_matcher() == old(self).spec_ask_matcher()
                },
                FeedEvent::Trade(t) => {
                    &&& (if spec_trade_side(&t) == TradeType::Bid {
                        final(self).spec_bid_matcher().spec_queue() == old(self).spec_bid_matcher().spec_queue().push(t) && final(self).spec_ask_matcher()
                            == old(self).spec_ask_matcher()
                    } else {
                        final(self).spec_ask_matcher().spec_queue() == old(self).spec_ask_matcher().spec_queue().push(t) && final(self).spec_bid_matcher()
                            == old(self).spec_bid_matcher()
                    })
                    &&& final(self).spec_book() == old(self).spec_book()
                },
            }),
    {
        match event {
            FeedEvent::Snapshot(s) => {
                self.book.update_with_snapshot(s);
            },
            FeedEvent::Diff(d) => {
                self.book.update(d);
            },
            FeedEvent::Trade(t) => {
                match trade_side(&t) {
                    TradeType::Bid => self.bid_matcher.add_trade(t),
                    TradeType::Ask => self.ask_matcher.add_trade(t),
                }
            },
        }
    }
}

} // verus!
