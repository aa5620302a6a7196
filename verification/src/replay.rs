//! Offline replay support: coalescing of same-timestamp same-price trade
//! bursts, and the error type the replay driver raises when a trade file
//! runs dry.

use vstd::prelude::*;

use crate::amount::{amount_ok, AMOUNT_MAX};
use crate::messages::TradeUpdate;

verus! {

/// Raised by the replay driver when a trade file has no more lines.
pub struct TradeReadError {
    message: String,
}

impl TradeReadError {
    pub fn new(msg: &str) -> (r: TradeReadError)
        ensures
            r.spec_message() == msg@,
    {
        TradeReadError { message: msg.to_owned() }
    }

    pub closed spec fn spec_message(&self) -> Seq<char> {
        self.message@
    }

    pub fn message(&self) -> (r: &String)
        ensures
            r@ == self.spec_message(),
    {
        &self.message
    }
}

/// The trade last read on one side, kept for coalescing.
pub struct PreviousTradeInfo {
    pub prev_event_time: u64,
    pub prev_price: i128,
    pub prev_quantity: i128,
    pub prev_trade_ids: Vec<String>,
}

impl PreviousTradeInfo {
    pub fn new() -> (r: Self)
        ensures
            r.prev_event_time == 0,
            r.prev_price == 0,
            r.prev_quantity == 0,
            r.prev_trade_ids@ == Seq::<String>::empty(),
    {
        Self {
            prev_event_time: 0,
            prev_price: 0,
            prev_quantity: 0,
            prev_trade_ids: Vec::new(),
        }
    }
}

fn clone_ids(ids: &Vec<String>) -> (r: Vec<String>)
    ensures
        r@ == ids@,
{
    let mut r: Vec<String> = Vec::new();
    let mut i: usize = 0;
    while i < ids.len()
        invariant
            0 <= i <= ids@.len(),
            r@ == ids@.take(i as int),
        decreases ids@.len() - i,
    {
        r.push(ids[i].clone());
        proof {
            assert(r@ =~= ids@.take(i + 1 as int));
        }
        i += 1;
    }
    proof {
        assert(ids@.take(ids@.len() as int) =~= ids@);
    }
    r
}

/// Replay-mode coalescing. When the trade just read shares its event time
/// and price with the previous one of its side, the two are merged: the
/// new trade absorbs the previous quantity and the previous identifiers.
/// Either way `prev` is then set to the (possibly merged) trade, for the
/// next read.
pub fn coalesce_trade(trade: &mut TradeUpdate, prev: &mut PreviousTradeInfo)
    requires
        old(trade).wf(),
        amount_ok(old(prev).prev_quantity as int),
        (old(trade).event_time == old(prev).prev_event_time && old(trade).price == old(
            prev,
        ).prev_price) ==> old(trade).quantity + old(prev).prev_quantity <= AMOUNT_MAX,
    ensures
        ({
            let merged = old(trade).event_time == old(prev).prev_event_time && old(trade).price
                == old(prev).prev_price;
            &&& (if merged {
                &&& final(trade).quantity == old(trade).quantity + old(prev).prev_quantity
                &&& final(trade).trade_ids@ == old(trade).trade_ids@ + old(prev).prev_trade_ids@
                &&& final(trade).event_time == old(trade).event_time
                &&& final(trade).price == old(trade).price
                &&& final(trade).event_type == old(trade).event_type
                &&& final(trade).symbol == old(trade).symbol
                &&& final(trade).buyer_order_id == old(trade).buyer_order_id
                &&& final(trade).seller_order_id == old(trade).seller_order_id
                &&& final(trade).trade_time == old(trade).trade_time
                &&& final(trade).is_market_maker == old(trade).is_market_maker
            } else {
                *final(trade) == *old(trade)
            })
            &&& final(prev).prev_event_time == final(trade).event_time
            &&& final(prev).prev_price == final(trade).price
            &&& final(prev).prev_quantity == final(trade).quantity
            &&& final(prev).prev_trade_ids@ == final(trade).trade_ids@
        }),
        amount_ok(final(trade).quantity as int),
{
    if trade.event_time == prev.prev_event_time && trade.price == prev.prev_price {
        trade.quantity = trade.quantity + prev.prev_quantity;
        trade.trade_ids.append(&mut prev.prev_trade_ids);
    }
    prev.prev_event_time = trade.event_time;
    prev.prev_price = trade.price;
    prev.prev_quantity = trade.quantity;
    prev.prev_trade_ids = clone_ids(&trade.trade_ids);
}

} // verus!
