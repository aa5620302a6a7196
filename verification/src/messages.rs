//! Typed records for the three feed messages: depth diffs, snapshots and
//! trades.
//!
//! Prices and quantities are scaled-integer amounts (see [`crate::amount`]).
//! A trade carries a list of trade identifiers: a trade read from the feed
//! has exactly one, and replay-mode coalescing of same-timestamp same-price
//! bursts appends the identifiers of the trades it absorbs.

use vstd::prelude::*;

use crate::amount::{amount_ok, pairs_ok};

verus! {

/// One incremental depth event: the levels to change on each side,
/// bracketed by an inclusive range of exchange sequence ids.
/// A pair with quantity `0` asks for the removal of its price level.
pub struct DepthUpdate {
    pub event_type: String,
    pub event_time: u64,
    pub symbol: String,
    pub first_update_id_in_event: u64,
    pub final_update_id_in_event: u64,
    pub bids_to_update: Vec<(i128, i128)>,
    pub asks_to_update: Vec<(i128, i128)>,
}

impl DepthUpdate {
    /// All prices and quantities are in range for the book's arithmetic.
    pub open spec fn wf(&self) -> bool {
        pairs_ok(self.bids_to_update@) && pairs_ok(self.asks_to_update@)
    }
}

/// A full order-book state at sequence id `last_update_id`.
pub struct SnapShotUpdate {
    pub last_update_id: u64,
    pub bids: Vec<(i128, i128)>,
    pub asks: Vec<(i128, i128)>,
}

/// Every pair of a snapshot side is in range and carries a strictly
/// positive quantity (an exchange snapshot never lists an empty level).
pub open spec fn snapshot_pairs_ok(s: Seq<(i128, i128)>) -> bool {
    forall|i: int| 0 <= i < s.len()
        ==> amount_ok((#[trigger] s[i]).0 as int) && 0 < s[i].1 && amount_ok(s[i].1 as int)
}

impl SnapShotUpdate {
    pub open spec fn wf(&self) -> bool {
        snapshot_pairs_ok(self.bids@) && snapshot_pairs_ok(self.asks@)
    }
}

/// One reported execution. `trade_ids` holds the identities this record
/// answers for; coalescing merges records, concatenating their identifier
/// lists.
pub struct TradeUpdate {
    pub event_type: String,
    pub event_time: u64,
    pub symbol: String,
    pub trade_ids: Vec<String>,
    pub price: i128,
    pub quantity: i128,
    pub buyer_order_id: u64,
    pub seller_order_id: u64,
    pub trade_time: u64,
    pub is_market_maker: bool,
}

impl TradeUpdate {
    pub open spec fn wf(&self) -> bool {
        amount_ok(self.price as int) && amount_ok(self.quantity as int)
    }

    /// The identifier list as a sequence of character sequences.
    pub open spec fn ids(&self) -> Seq<Seq<char>> {
        self.trade_ids@.map_values(|s: String| s@)
    }
}

} // verus!
