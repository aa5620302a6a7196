//! The order book: bid and ask ladders, snapshot and diff application, and
//! matching of trades against the best-level volume deltas each diff emits.
//!
//! Diff application follows two ghost models, [`apply_side`] and
//! [`match_deltas`], which the executable methods are proved to implement.

use vstd::prelude::*;

use crate::amount::pairs_ok;
use crate::ladder::{is_max_price, is_min_price, ladder_map_ok, Ladder};
use crate::messages::{snapshot_pairs_ok, DepthUpdate, SnapShotUpdate, TradeUpdate};
use crate::trade_matcher::TradeType;

verus! {

/// The liquidity change one diff produced at one price level:
/// `volume` is the previous quantity minus the new one, so a positive
/// volume is liquidity consumed.
#[derive(Clone, Copy, Debug)]
pub struct LevelDelta {
    price: i128,
    volume: i128,
    event_time: u64,
}

impl View for LevelDelta {
    type V = (int, int, int);

    closed spec fn view(&self) -> (int, int, int) {
        (self.price as int, self.volume as int, self.event_time as int)
    }
}

impl LevelDelta {
    pub fn new(price: i128, volume: i128, event_time: u64) -> (r: Self)
        ensures
            r@ == (price as int, volume as int, event_time as int),
    {
        Self { price, volume, event_time }
    }

    pub fn price(&self) -> (r: i128)
        ensures
            r as int == self@.0,
    {
        self.price
    }

    pub fn volume(&self) -> (r: i128)
        ensures
            r as int == self@.1,
    {
        self.volume
    }

    pub fn event_time(&self) -> (r: u64)
        ensures
            r as int == self@.2,
    {
        self.event_time
    }
}

pub open spec fn deltas_view(ds: Seq<LevelDelta>) -> Seq<(int, int, int)> {
    ds.map_values(|d: LevelDelta| d@)
}

/// The greatest key of `m`, if any key is greatest.
pub open spec fn max_price_of(m: Map<int, int>) -> Option<int> {
    if exists|p: int| is_max_price(m, p) {
        Some(choose|p: int| is_max_price(m, p))
    } else {
        Option::None
    }
}

/// The least key of `m`, if any key is least.
pub open spec fn min_price_of(m: Map<int, int>) -> Option<int> {
    if exists|p: int| is_min_price(m, p) {
        Some(choose|p: int| is_min_price(m, p))
    } else {
        Option::None
    }
}

pub proof fn lemma_max_price_unique(m: Map<int, int>, p: int)
    requires
        is_max_price(m, p),
    ensures
        max_price_of(m) == Some(p),
{
    let q = choose|q: int| is_max_price(m, q);
    assert(is_max_price(m, q));
    assert(q <= p && p <= q);
}

pub proof fn lemma_min_price_unique(m: Map<int, int>, p: int)
    requires
        is_min_price(m, p),
    ensures
        min_price_of(m) == Some(p),
{
    let q = choose|q: int| is_min_price(m, q);
    assert(is_min_price(m, q));
    assert(q <= p && p <= q);
}

pub open spec fn opt_view(b: Option<i128>) -> Option<int> {
    match b {
        Some(p) => Some(p as int),
        Option::None => Option::None,
    }
}

/// What one side of a diff produces: the ladder afterwards, the emitted
/// best-level deltas in order, and whether the best level was touched.
pub ghost struct SideOut {
    pub ladder: Map<int, int>,
    pub deltas: Seq<(int, int, int)>,
    pub updated: bool,
}

/// The effect of applying the pairs of one diff side, in received order, to
/// a ladder whose best price going into the diff was `best`.
///
/// A pair emits a delta when its price is the pre-diff best, or the
/// directly preceding pair emitted a delta and removed its level
/// (`add_next`), and the price is currently present in the ladder. The
/// delta's volume is the present quantity minus the pair's. Afterwards the
/// pair is applied: quantity `0` removes the level, any other quantity
/// replaces it.
pub open spec fn apply_side(
    lad: Map<int, int>,
    best: Option<int>,
    pairs: Seq<(i128, i128)>,
    add_next: bool,
    ev: int,
) -> SideOut
    decreases pairs.len(),
{
    if pairs.len() == 0 {
        SideOut { ladder: lad, deltas: Seq::empty(), updated: false }
    } else {
        let p = pairs[0].0 as int;
        let q = pairs[0].1 as int;
        let hit = (best == Some(p) || add_next) && lad.contains_key(p);
        let next_add = if hit {
            q == 0
        } else {
            add_next
        };
        let lad1 = if q == 0 {
            lad.remove(p)
        } else {
            lad.insert(p, q)
        };
        let rest = apply_side(lad1, best, pairs.drop_first(), next_add, ev);
        SideOut {
            ladder: rest.ladder,
            deltas: if hit {
                seq![(p, lad[p] - q, ev)] + rest.deltas
            } else {
                rest.deltas
            },
            updated: hit || rest.updated,
        }
    }
}

/// What matching one trade against a delta list produces: the sentinel
/// result (`0` no match, `1` stale, anything greater the matched event
/// time) and the delta list afterwards.
pub ghost struct MatchOut {
    pub result: int,
    pub deltas: Seq<(int, int, int)>,
}

/// Matching a trade of `price` and `qty` at trade event time `te` against
/// the deltas in order: a delta with negative volume is skipped; one more
/// than 100 ms newer than the trade stops the scan as stale; one equal in
/// price and volume matches, is reduced by the trade quantity, and yields
/// its event time.
pub open spec fn match_deltas(ds: Seq<(int, int, int)>, price: int, qty: int, te: int) -> MatchOut
    decreases ds.len(),
{
    if ds.len() == 0 {
        MatchOut { result: 0, deltas: ds }
    } else {
        let d = ds[0];
        if d.1 < 0 {
            let rest = match_deltas(ds.drop_first(), price, qty, te);
            MatchOut { result: rest.result, deltas: seq![d] + rest.deltas }
        } else if d.2 > te + 100 {
            MatchOut { result: 1, deltas: ds }
        } else if price == d.0 && qty == d.1 {
            MatchOut { result: d.2, deltas: seq![(d.0, d.1 - qty, d.2)] + ds.drop_first() }
        } else {
            let rest = match_deltas(ds.drop_first(), price, qty, te);
            MatchOut { result: rest.result, deltas: seq![d] + rest.deltas }
        }
    }
}

/// One unfolding of [`apply_side`] on a non-empty pair list.
proof fn lemma_apply_side_step(
    lad: Map<int, int>,
    best: Option<int>,
    pairs: Seq<(i128, i128)>,
    add_next: bool,
    ev: int,
)
    requires
        pairs.len() > 0,
    ensures
        ({
            let p = pairs[0].0 as int;
            let q = pairs[0].1 as int;
            let hit = (best == Some(p) || add_next) && lad.contains_key(p);
            let next_add = if hit {
                q == 0
            } else {
                add_next
            };
            let lad1 = if q == 0 {
                lad.remove(p)
            } else {
                lad.insert(p, q)
            };
            let rest = apply_side(lad1, best, pairs.drop_first(), next_add, ev);
            apply_side(lad, best, pairs, add_next, ev) == SideOut {
                ladder: rest.ladder,
                deltas: if hit {
                    seq![(p, lad[p] - q, ev)] + rest.deltas
                } else {
                    rest.deltas
                },
                updated: hit || rest.updated,
            }
        }),
{
}

/// [`apply_side`] of an empty pair list changes nothing and emits nothing.
proof fn lemma_apply_side_empty(
    lad: Map<int, int>,
    best: Option<int>,
    pairs: Seq<(i128, i128)>,
    add_next: bool,
    ev: int,
)
    requires
        pairs.len() == 0,
    ensures
        apply_side(lad, best, pairs, add_next, ev) == (SideOut {
            ladder: lad,
            deltas: Seq::<(int, int, int)>::empty(),
            updated: false,
        }),
{
}

/// One unfolding of [`match_deltas`] on a non-empty delta list.
proof fn lemma_match_deltas_step(ds: Seq<(int, int, int)>, price: int, qty: int, te: int)
    requires
        ds.len() > 0,
    ensures
        ({
            let d = ds[0];
            let rest = match_deltas(ds.drop_first(), price, qty, te);
            match_deltas(ds, price, qty, te) == (if d.1 < 0 {
                MatchOut { result: rest.result, deltas: seq![d] + rest.deltas }
            } else if d.2 > te + 100 {
                MatchOut { result: 1, deltas: ds }
            } else if price == d.0 && qty == d.1 {
                MatchOut { result: d.2, deltas: seq![(d.0, d.1 - qty, d.2)] + ds.drop_first() }
            } else {
                MatchOut { result: rest.result, deltas: seq![d] + rest.deltas }
            })
        }),
{
}

/// [`match_deltas`] of an empty delta list yields no match.
proof fn lemma_match_deltas_empty(ds: Seq<(int, int, int)>, price: int, qty: int, te: int)
    requires
        ds.len() == 0,
    ensures
        match_deltas(ds, price, qty, te) == (MatchOut { result: 0, deltas: ds }),
{
}

/// Each price occurs at most once in a diff side.
pub open spec fn distinct_prices(pairs: Seq<(i128, i128)>) -> bool {
    forall|i: int, j: int| 0 <= i < j < pairs.len() ==> (#[trigger] pairs[i]).0 != (
    #[trigger] pairs[j]).0
}

/// A price no pair mentions keeps exactly the level it had.
pub proof fn lemma_untouched_price(
    lad: Map<int, int>,
    best: Option<int>,
    pairs: Seq<(i128, i128)>,
    add_next: bool,
    ev: int,
    p: int,
)
    requires
        forall|i: int| 0 <= i < pairs.len() ==> (#[trigger] pairs[i]).0 as int != p,
    ensures
        ({
            let m = apply_side(lad, best, pairs, add_next, ev).ladder;
            &&& m.contains_key(p) == lad.contains_key(p)
            &&& lad.contains_key(p) ==> m[p] == lad[p]
        }),
    decreases pairs.len(),
{
    if pairs.len() > 0 {
        let p0 = pairs[0].0 as int;
        let q0 = pairs[0].1 as int;
        let hit = (best == Some(p0) || add_next) && lad.contains_key(p0);
        let next_add = if hit {
            q0 == 0
        } else {
            add_next
        };
        let lad1 = if q0 == 0 {
            lad.remove(p0)
        } else {
            lad.insert(p0, q0)
        };
        assert(p0 != p);
        assert(forall|i: int| 0 <= i < pairs.drop_first().len() ==> (
        #[trigger] pairs.drop_first()[i]).0 as int != p);
        lemma_untouched_price(lad1, best, pairs.drop_first(), next_add, ev, p);
    }
}

/// Law: after a diff side whose prices are pairwise distinct is applied,
/// every price whose pair carried quantity zero is absent from the ladder.
pub proof fn lemma_zero_quantity_removes(
    lad: Map<int, int>,
    best: Option<int>,
    pairs: Seq<(i128, i128)>,
    add_next: bool,
    ev: int,
    k: int,
)
    requires
        distinct_prices(pairs),
        0 <= k < pairs.len(),
        pairs[k].1 == 0,
    ensures
        !apply_side(lad, best, pairs, add_next, ev).ladder.contains_key(pairs[k].0 as int),
    decreases pairs.len(),
{
    let p0 = pairs[0].0 as int;
    let q0 = pairs[0].1 as int;
    let hit = (best == Some(p0) || add_next) && lad.contains_key(p0);
    let next_add = if hit {
        q0 == 0
    } else {
        add_next
    };
    let lad1 = if q0 == 0 {
        lad.remove(p0)
    } else {
        lad.insert(p0, q0)
    };
    let rest = pairs.drop_first();
    if k == 0 {
        assert(q0 == 0);
        assert(!lad1.contains_key(p0));
        assert(forall|i: int| 0 <= i < rest.len() ==> (#[trigger] rest[i]).0 as int != p0);
        lemma_untouched_price(lad1, best, rest, next_add, ev, p0);
    } else {
        assert(forall|i: int, j: int| 0 <= i < j < rest.len() ==> (#[trigger] rest[i]).0 != (
        #[trigger] rest[j]).0);
        assert(rest[k - 1] == pairs[k]);
        lemma_zero_quantity_removes(lad1, best, rest, next_add, ev, k - 1);
    }
}

/// The number of pairs that meet the touch-or-cascade rule while their
/// price is present, under the same walk as [`apply_side`].
pub open spec fn emit_count(
    lad: Map<int, int>,
    best: Option<int>,
    pairs: Seq<(i128, i128)>,
    add_next: bool,
) -> int
    decreases pairs.len(),
{
    if pairs.len() == 0 {
        0
    } else {
        let p = pairs[0].0 as int;
        let q = pairs[0].1 as int;
        let hit = (best == Some(p) || add_next) && lad.contains_key(p);
        let next_add = if hit {
            q == 0
        } else {
            add_next
        };
        let lad1 = if q == 0 {
            lad.remove(p)
        } else {
            lad.insert(p, q)
        };
        (if hit {
            1int
        } else {
            0int
        }) + emit_count(lad1, best, pairs.drop_first(), next_add)
    }
}

/// Law: a diff side emits exactly one delta per pair that met the
/// touch-or-cascade rule and was present in the ladder at its turn.
pub proof fn lemma_delta_count(
    lad: Map<int, int>,
    best: Option<int>,
    pairs: Seq<(i128, i128)>,
    add_next: bool,
    ev: int,
)
    ensures
        apply_side(lad, best, pairs, add_next, ev).deltas.len() == emit_count(
            lad,
            best,
            pairs,
            add_next,
        ),
    decreases pairs.len(),
{
    if pairs.len() > 0 {
        let p = pairs[0].0 as int;
        let q = pairs[0].1 as int;
        let hit = (best == Some(p) || add_next) && lad.contains_key(p);
        let next_add = if hit {
            q == 0
        } else {
            add_next
        };
        let lad1 = if q == 0 {
            lad.remove(p)
        } else {
            lad.insert(p, q)
        };
        lemma_delta_count(lad1, best, pairs.drop_first(), next_add, ev);
    }
}

/// Law: a diff side that never names the pre-diff best price emits no
/// deltas and does not set the touch flag.
pub proof fn lemma_untouched_best(
    lad: Map<int, int>,
    best: Option<int>,
    pairs: Seq<(i128, i128)>,
    ev: int,
)
    requires
        forall|i: int| 0 <= i < pairs.len() ==> best != Some((#[trigger] pairs[i]).0 as int),
    ensures
        !apply_side(lad, best, pairs, false, ev).updated,
        apply_side(lad, best, pairs, false, ev).deltas == Seq::<(int, int, int)>::empty(),
    decreases pairs.len(),
{
    if pairs.len() > 0 {
        let p = pairs[0].0 as int;
        let q = pairs[0].1 as int;
        let hit = (best == Some(p) || false) && lad.contains_key(p);
        assert(!hit);
        let lad1 = if q == 0 {
            lad.remove(p)
        } else {
            lad.insert(p, q)
        };
        assert(forall|i: int| 0 <= i < pairs.drop_first().len() ==> best != Some((
        #[trigger] pairs.drop_first()[i]).0 as int));
        lemma_untouched_best(lad1, best, pairs.drop_first(), ev);
    }
}

/// Law: a matched trade zeroes exactly the delta it consumed.
pub proof fn lemma_match_consumes(ds: Seq<(int, int, int)>, price: int, qty: int, te: int)
    requires
        match_deltas(ds, price, qty, te).result > 1,
    ensures
        exists|k: int|
            0 <= k < ds.len() && #[trigger] ds[k] == (price, qty, match_deltas(
                ds,
                price,
                qty,
                te,
            ).result) && match_deltas(ds, price, qty, te).deltas == ds.update(
                k,
                (price, 0, ds[k].2),
            ),
    decreases ds.len(),
{
    let out = match_deltas(ds, price, qty, te);
    let d = ds[0];
    if d.1 < 0 || !(d.2 > te + 100) && !(price == d.0 && qty == d.1) {
        let rest = match_deltas(ds.drop_first(), price, qty, te);
        lemma_match_consumes(ds.drop_first(), price, qty, te);
        let k = choose|k: int|
            0 <= k < ds.drop_first().len() && #[trigger] ds.drop_first()[k] == (
                price,
                qty,
                rest.result,
            ) && rest.deltas == ds.drop_first().update(k, (price, 0, ds.drop_first()[k].2));
        assert(ds[k + 1] == ds.drop_first()[k]);
        assert(out.deltas =~= ds.update(k + 1, (price, 0, ds[k + 1].2)));
    } else {
        assert(!(d.2 > te + 100));
        assert(price == d.0 && qty == d.1);
        assert(ds[0] == (price, qty, out.result));
        assert(out.deltas =~= ds.update(0, (price, 0, ds[0].2)));
    }
}

/// If no delta equals the trade in price and volume, the scan cannot match.
pub proof fn lemma_match_none(ds: Seq<(int, int, int)>, price: int, qty: int, te: int)
    requires
        forall|i: int| 0 <= i < ds.len() ==> !((#[trigger] ds[i]).0 == price && ds[i].1 == qty),
    ensures
        match_deltas(ds, price, qty, te).result == 0 || match_deltas(ds, price, qty, te).result
            == 1,
    decreases ds.len(),
{
    if ds.len() > 0 {
        assert(forall|i: int| 0 <= i < ds.drop_first().len() ==> !((#[trigger] ds.drop_first()[i]).0
            == price && ds.drop_first()[i].1 == qty));
        lemma_match_none(ds.drop_first(), price, qty, te);
    }
}

/// Law: when the list held exactly one delta equal to the trade, a second
/// identical trade after a match no longer matches: the consumed delta was
/// reduced by the trade quantity.
pub proof fn lemma_match_no_double(ds: Seq<(int, int, int)>, price: int, qty: int, te: int)
    requires
        qty > 0,
        match_deltas(ds, price, qty, te).result > 1,
        forall|i: int, j: int|
            0 <= i < j < ds.len() && ((#[trigger] ds[i]).0 == price && ds[i].1 == qty) ==> !((
            #[trigger] ds[j]).0 == price && ds[j].1 == qty),
    ensures
        match_deltas(match_deltas(ds, price, qty, te).deltas, price, qty, te).result <= 1,
    decreases ds.len(),
{
    let out = match_deltas(ds, price, qty, te);
    let d = ds[0];
    let rest = ds.drop_first();
    assert(forall|i: int| 0 <= i < rest.len() ==> #[trigger] rest[i] == ds[i + 1]);
    if d.1 < 0 {
        let rest_out = match_deltas(rest, price, qty, te);
        lemma_match_no_double(rest, price, qty, te);
        assert(out.deltas == seq![d] + rest_out.deltas);
        assert(out.deltas[0] == d);
        assert(out.deltas.drop_first() =~= rest_out.deltas);
    } else if d.2 > te + 100 {
        assert(false);
    } else if price == d.0 && qty == d.1 {
        assert(out.deltas == seq![(d.0, d.1 - qty, d.2)] + rest);
        assert(out.deltas[0] == (price, 0int, d.2));
        assert(out.deltas.drop_first() =~= rest);
        assert(forall|i: int| 0 <= i < rest.len() ==> !((#[trigger] rest[i]).0 == price && rest[i].1
            == qty));
        lemma_match_none(rest, price, qty, te);
    } else {
        let rest_out = match_deltas(rest, price, qty, te);
        lemma_match_no_double(rest, price, qty, te);
        assert(out.deltas == seq![d] + rest_out.deltas);
        assert(out.deltas[0] == d);
        assert(out.deltas.drop_first() =~= rest_out.deltas);
    }
}

/// The ladder a snapshot side yields: its pairs inserted in order.
pub open spec fn snapshot_map(s: Seq<(i128, i128)>) -> Map<int, int>
    decreases s.len(),
{
    if s.len() == 0 {
        Map::empty()
    } else {
        snapshot_map(s.drop_last()).insert(s.last().0 as int, s.last().1 as int)
    }
}

/// What a diff's sequence ids reveal about continuity, checked only for a
/// diff the book would apply. Neither anomaly stops the apply: the book
/// stays possibly inconsistent until the next snapshot repairs it.
#[derive(Clone, Copy, Debug, PartialEq, Eq, Structural)]
pub enum SequenceAnomaly {
    /// The first diff after a snapshot starts past the snapshot's next
    /// sequence id: the snapshot was too old.
    StaleSnapshot,
    /// A later diff does not start right after the previous one ended.
    Gap,
}

/// The anomaly a diff would exhibit against the book's sequence
/// bookkeeping, or `None` for a no-op diff and for a continuous one.
pub open spec fn spec_sequence_anomaly(book: &OrderBook, u: &DepthUpdate) -> Option<
    SequenceAnomaly,
> {
    if book.spec_last_update_id() == 0 || u.final_update_id_in_event
        <= book.spec_last_update_id() {
        Option::None
    } else if book.spec_first_update_id() == 0 && u.first_update_id_in_event
        > book.spec_last_update_id() + 1 {
        Some(SequenceAnomaly::StaleSnapshot)
    } else if book.spec_first_update_id() != 0 && u.first_update_id_in_event
        != book.spec_final_update_id() + 1 {
        Some(SequenceAnomaly::Gap)
    } else {
        Option::None
    }
}

pub struct OrderBook {
    last_update_id: u64,
    first_update_id_in_event: u64,
    final_update_id_in_event: u64,
    bids: Ladder,
    asks: Ladder,
    best_bid_updated: bool,
    best_ask_updated: bool,
    best_bid_deltas: Vec<LevelDelta>,
    best_ask_deltas: Vec<LevelDelta>,
}

impl OrderBook {
    pub closed spec fn wf(&self) -> bool {
        self.bids.inv() && self.asks.inv()
    }

    pub closed spec fn spec_bids(&self) -> Map<int, int> {
        self.bids@
    }

    pub closed spec fn spec_asks(&self) -> Map<int, int> {
        self.asks@
    }

    pub closed spec fn spec_last_update_id(&self) -> u64 {
        self.last_update_id
    }

    pub closed spec fn spec_first_update_id(&self) -> u64 {
        self.first_update_id_in_event
    }

    pub closed spec fn spec_final_update_id(&self) -> u64 {
        self.final_update_id_in_event
    }

    pub closed spec fn spec_best_bid_updated(&self) -> bool {
        self.best_bid_updated
    }

    pub closed spec fn spec_best_ask_updated(&self) -> bool {
        self.best_ask_updated
    }

    pub closed spec fn spec_bid_deltas(&self) -> Seq<(int, int, int)> {
        deltas_view(self.best_bid_deltas@)
    }

    pub closed spec fn spec_ask_deltas(&self) -> Seq<(int, int, int)> {
        deltas_view(self.best_ask_deltas@)
    }

    /// Every quantity resting in either ladder is strictly positive.
    pub proof fn lemma_ladders_positive(&self)
        requires
            self.wf(),
        ensures
            ladder_map_ok(self.spec_bids()),
            ladder_map_ok(self.spec_asks()),
    {
        self.bids.lemma_inv_map_ok();
        self.asks.lemma_inv_map_ok();
    }

    pub fn new() -> (r: Self)
        ensures
            r.wf(),
            r.spec_last_update_id() == 0,
            r.spec_first_update_id() == 0,
            r.spec_final_update_id() == 0,
            r.spec_bids() == Map::<int, int>::empty(),
            r.spec_asks() == Map::<int, int>::empty(),
            !r.spec_best_bid_updated(),
            !r.spec_best_ask_updated(),
            r.spec_bid_deltas() == Seq::<(int, int, int)>::empty(),
            r.spec_ask_deltas() == Seq::<(int, int, int)>::empty(),
    {
        let r = Self {
            last_update_id: 0,
            first_update_id_in_event: 0,
            final_update_id_in_event: 0,
            bids: Ladder::new(),
            asks: Ladder::new(),
            best_bid_updated: false,
            best_ask_updated: false,
            best_bid_deltas: Vec::new(),
            best_ask_deltas: Vec::new(),
        };
        proof {
            assert(r.spec_bid_deltas() =~= Seq::<(int, int, int)>::empty());
            assert(r.spec_ask_deltas() =~= Seq::<(int, int, int)>::empty());
        }
        r
    }

    pub fn is_best_bid_updated(&self) -> (r: bool)
        ensures
            r == self.spec_best_bid_updated(),
    {
        self.best_bid_updated
    }

    pub fn is_best_ask_updated(&self) -> (r: bool)
        ensures
            r == self.spec_best_ask_updated(),
    {
        self.best_ask_updated
    }

    /// The quantity resting at a bid price, if that level exists.
    pub fn bid_quantity(&self, price: i128) -> (r: Option<i128>)
        requires
            self.wf(),
        ensures
            match r {
                Some(q) => self.spec_bids().contains_key(price as int) && q as int
                    == self.spec_bids()[price as int],
                Option::None => !self.spec_bids().contains_key(price as int),
            },
    {
        self.bids.get(price)
    }

    /// The quantity resting at an ask price, if that level exists.
    pub fn ask_quantity(&self, price: i128) -> (r: Option<i128>)
        requires
            self.wf(),
        ensures
            match r {
                Some(q) => self.spec_asks().contains_key(price as int) && q as int
                    == self.spec_asks()[price as int],
                Option::None => !self.spec_asks().contains_key(price as int),
            },
    {
        self.asks.get(price)
    }

    /// The best-level deltas the last diff produced on the bid side.
    pub fn bid_deltas(&self) -> (r: &Vec<LevelDelta>)
        ensures
            deltas_view(r@) == self.spec_bid_deltas(),
    {
        &self.best_bid_deltas
    }

    /// The best-level deltas the last diff produced on the ask side.
    pub fn ask_deltas(&self) -> (r: &Vec<LevelDelta>)
        ensures
            deltas_view(r@) == self.spec_ask_deltas(),
    {
        &self.best_ask_deltas
    }

    pub fn last_update_id(&self) -> (r: u64)
        ensures
            r == self.spec_last_update_id(),
    {
        self.last_update_id
    }

    /// All bid levels, for presentation; no order is stated.
    pub fn bid_levels(&self) -> (r: Vec<(i128, i128)>)
        requires
            self.wf(),
        ensures
            forall|i: int| 0 <= i < r@.len() ==> self.spec_bids().contains_key(
                (#[trigger] r@[i]).0 as int,
            ) && r@[i].1 as int == self.spec_bids()[r@[i].0 as int],
            forall|p: int| #[trigger] self.spec_bids().contains_key(p) ==> exists|i: int|
                0 <= i < r@.len() && (#[trigger] r@[i]).0 as int == p,
            forall|i: int, j: int| 0 <= i < j < r@.len() ==> (#[trigger] r@[i]).0 != (
            #[trigger] r@[j]).0,
            r@.len() == self.spec_bids().dom().len(),
    {
        self.bids.entries()
    }

    /// All ask levels, for presentation; no order is stated.
    pub fn ask_levels(&self) -> (r: Vec<(i128, i128)>)
        requires
            self.wf(),
        ensures
            forall|i: int| 0 <= i < r@.len() ==> self.spec_asks().contains_key(
                (#[trigger] r@[i]).0 as int,
            ) && r@[i].1 as int == self.spec_asks()[r@[i].0 as int],
            forall|p: int| #[trigger] self.spec_asks().contains_key(p) ==> exists|i: int|
                0 <= i < r@.len() && (#[trigger] r@[i]).0 as int == p,
            forall|i: int, j: int| 0 <= i < j < r@.len() ==> (#[trigger] r@[i]).0 != (
            #[trigger] r@[j]).0,
            r@.len() == self.spec_asks().dom().len(),
    {
        self.asks.entries()
    }

    /// Checks a diff's sequence ids for continuity before it is applied;
    /// see [`spec_sequence_anomaly`].
    pub fn sequence_anomaly(&self, update: &DepthUpdate) -> (r: Option<SequenceAnomaly>)
        ensures
            r == spec_sequence_anomaly(self, update),
    {
        if self.last_update_id == 0 || update.final_update_id_in_event <= self.last_update_id {
            return None;
        }
        if self.first_update_id_in_event == 0 {
            if update.first_update_id_in_event > self.last_update_id
                && update.first_update_id_in_event - self.last_update_id > 1 {
                return Some(SequenceAnomaly::StaleSnapshot);
            }
            return None;
        }
        let continuous = update.first_update_id_in_event > self.final_update_id_in_event
            && update.first_update_id_in_event - self.final_update_id_in_event == 1;
        if !continuous {
            return Some(SequenceAnomaly::Gap);
        }
        None
    }

    /// Replaces the book with the snapshot's levels and sequence id.
    /// Snapshots emit no deltas: flags, delta lists and the diff sequence
    /// bookkeeping stay as they were.
    pub fn update_with_snapshot(&mut self, update: SnapShotUpdate)
        requires
            old(self).wf(),
            update.wf(),
        ensures
            final(self).wf(),
            final(self).spec_last_update_id() == update.last_update_id,
            final(self).spec_bids() == snapshot_map(update.bids@),
            final(self).spec_asks() == snapshot_map(update.asks@),
            final(self).spec_first_update_id() == old(self).spec_first_update_id(),
            final(self).spec_final_update_id() == old(self).spec_final_update_id(),
            final(self).spec_best_bid_updated() == old(self).spec_best_bid_updated(),
            final(self).spec_best_ask_updated() == old(self).spec_best_ask_updated(),
            final(self).spec_bid_deltas() == old(self).spec_bid_deltas(),
            final(self).spec_ask_deltas() == old(self).spec_ask_deltas(),
    {
        self.last_update_id = update.last_update_id;
        self.bids.clear();
        self.asks.clear();
        load_snapshot_side(&mut self.bids, &update.bids);
        load_snapshot_side(&mut self.asks, &update.asks);
    }

    /// Applies one depth diff. A diff before any snapshot, or one whose
    /// final sequence id does not exceed the snapshot's, is a no-op.
    /// Otherwise both sides are applied under [`apply_side`], the delta
    /// lists and touch flags are rebuilt from scratch, and the diff's
    /// sequence ids are recorded.
    pub fn update(&mut self, update: DepthUpdate)
        requires
            old(self).wf(),
            update.wf(),
        ensures
            final(self).wf(),
            old(self).spec_last_update_id() == 0 ==> *final(self) == *old(self),
            old(self).spec_last_update_id() != 0 && update.final_update_id_in_event <= old(
                self,
            ).spec_last_update_id() ==> *final(self) == *old(self),
            old(self).spec_last_update_id() != 0 && update.final_update_id_in_event > old(
                self,
            ).spec_last_update_id() ==> ({
                let bout = apply_side(
                    old(self).spec_bids(),
                    max_price_of(old(self).spec_bids()),
                    update.bids_to_update@,
                    false,
                    update.event_time as int,
                );
                let aout = apply_side(
                    old(self).spec_asks(),
                    min_price_of(old(self).spec_asks()),
                    update.asks_to_update@,
                    false,
                    update.event_time as int,
                );
                &&& final(self).spec_bids() == bout.ladder
                &&& final(self).spec_asks() == aout.ladder
                &&& final(self).spec_bid_deltas() == bout.deltas
                &&& final(self).spec_ask_deltas() == aout.deltas
                &&& final(self).spec_best_bid_updated() == bout.updated
                &&& final(self).spec_best_ask_updated() == aout.updated
                &&& final(self).spec_last_update_id() == old(self).spec_last_update_id()
                &&& final(self).spec_first_update_id() == update.first_update_id_in_event
                &&& final(self).spec_final_update_id() == update.final_update_id_in_event
            }),
    {
        if self.last_update_id == 0 {
            return ;
        }
        if update.final_update_id_in_event <= self.last_update_id {
            return ;
        }
        // A diff out of sequence (a gap, or a stale snapshot) is applied
        // anyway; the book stays possibly inconsistent until the next
        // snapshot repairs it.
        self.first_update_id_in_event = update.first_update_id_in_event;
        self.final_update_id_in_event = update.final_update_id_in_event;
        let current_best_bid = self.bids.max_price();
        let current_best_ask = self.asks.min_price();
        proof {
            match current_best_bid {
                Some(b) => lemma_max_price_unique(self.bids@, b as int),
                Option::None => {
                    if exists|p: int| is_max_price(self.bids@, p) {
                        let p = choose|p: int| is_max_price(self.bids@, p);
                        assert(self.bids@.contains_key(p));
                    }
                },
            }
            match current_best_ask {
                Some(b) => lemma_min_price_unique(self.asks@, b as int),
                Option::None => {
                    if exists|p: int| is_min_price(self.asks@, p) {
                        let p = choose|p: int| is_min_price(self.asks@, p);
                        assert(self.asks@.contains_key(p));
                    }
                },
            }
        }
        self.best_bid_deltas.clear();
        self.best_ask_deltas.clear();
        self.best_bid_updated = apply_side_exec(
            &mut self.bids,
            &mut self.best_bid_deltas,
            &update.bids_to_update,
            current_best_bid,
            update.event_time,
        );
        self.best_ask_updated = apply_side_exec(
            &mut self.asks,
            &mut self.best_ask_deltas,
            &update.asks_to_update,
            current_best_ask,
            update.event_time,
        );
    }

    /// Matches one trade against the delta list of its side; see
    /// [`match_deltas`] for the outcome protocol. Everything else in the
    /// book is left as it was.
    pub fn match_and_process_trade(&mut self, trade: &TradeUpdate, trade_type: TradeType) -> (r:
        u64)
        requires
            old(self).wf(),
        ensures
            final(self).wf(),
            ({
                let ds0 = if trade_type == TradeType::Bid {
                    old(self).spec_bid_deltas()
                } else {
                    old(self).spec_ask_deltas()
                };
                let out = match_deltas(
                    ds0,
                    trade.price as int,
                    trade.quantity as int,
                    trade.event_time as int,
                );
                &&& r as int == out.result
                &&& (if trade_type == TradeType::Bid {
                    final(self).spec_bid_deltas() == out.deltas && final(self).spec_ask_deltas()
                        == old(self).spec_ask_deltas()
                } else {
                    final(self).spec_ask_deltas() == out.deltas && final(self).spec_bid_deltas()
                        == old(self).spec_bid_deltas()
                })
            }),
            final(self).spec_bids() == old(self).spec_bids(),
            final(self).spec_asks() == old(self).spec_asks(),
            final(self).spec_last_update_id() == old(self).spec_last_update_id(),
            final(self).spec_first_update_id() == old(self).spec_first_update_id(),
            final(self).spec_final_update_id() == old(self).spec_final_update_id(),
            final(self).spec_best_bid_updated() == old(self).spec_best_bid_updated(),
            final(self).spec_best_ask_updated() == old(self).spec_best_ask_updated(),
    {
        match trade_type {
            TradeType::Bid => match_deltas_exec(
                &mut self.best_bid_deltas,
                trade.price,
                trade.quantity,
                trade.event_time,
            ),
            TradeType::Ask => match_deltas_exec(
                &mut self.best_ask_deltas,
                trade.price,
                trade.quantity,
                trade.event_time,
            ),
        }
    }
}

/// Inserts a snapshot side's pairs in order into a cleared ladder.
fn load_snapshot_side(lad: &mut Ladder, pairs: &Vec<(i128, i128)>)
    requires
        old(lad).inv(),
        old(lad)@ == Map::<int, int>::empty(),
        snapshot_pairs_ok(pairs@),
    ensures
        final(lad).inv(),
        final(lad)@ == snapshot_map(pairs@),
{
    let mut i: usize = 0;
    while i < pairs.len()
        invariant
            lad.inv(),
            snapshot_pairs_ok(pairs@),
            0 <= i <= pairs@.len(),
            lad@ == snapshot_map(pairs@.take(i as int)),
        decreases pairs@.len() - i,
    {
        let pq = pairs[i];
        lad.set(pq.0, pq.1);
        proof {
            let t1 = pairs@.take(i + 1 as int);
            assert(t1.drop_last() =~= pairs@.take(i as int));
            assert(t1.last() == pairs@[i as int]);
        }
        i += 1;
    }
    proof {
        assert(pairs@.take(pairs@.len() as int) =~= pairs@);
    }
}

/// Applies one side of a diff to its ladder, emitting best-level deltas
/// into `deltas`; returns whether the side's best was touched. Implements
/// [`apply_side`].
fn apply_side_exec(
    lad: &mut Ladder,
    deltas: &mut Vec<LevelDelta>,
    pairs: &Vec<(i128, i128)>,
    best: Option<i128>,
    ev: u64,
) -> (updated: bool)
    requires
        old(lad).inv(),
        old(deltas)@.len() == 0,
        pairs_ok(pairs@),
    ensures
        final(lad).inv(),
        ({
            let out = apply_side(old(lad)@, opt_view(best), pairs@, false, ev as int);
            &&& final(lad)@ == out.ladder
            &&& deltas_view(final(deltas)@) == out.deltas
            &&& updated == out.updated
        }),
{
    let ghost lad0 = lad@;
    let ghost bestv = opt_view(best);
    let ghost full = apply_side(lad0, bestv, pairs@, false, ev as int);
    let mut updated = false;
    let mut add_next = false;
    let mut i: usize = 0;
    proof {
        assert(deltas_view(deltas@) =~= Seq::<(int, int, int)>::empty());
        assert(pairs@.skip(0) =~= pairs@);
        let rest = apply_side(lad@, bestv, pairs@.skip(0), false, ev as int);
        assert(rest == full);
        assert(deltas_view(deltas@) + rest.deltas =~= rest.deltas);
    }
    while i < pairs.len()
        invariant
            lad.inv(),
            pairs_ok(pairs@),
            0 <= i <= pairs@.len(),
            bestv == opt_view(best),
            full == apply_side(lad0, bestv, pairs@, false, ev as int),
            ({
                let rest = apply_side(lad@, bestv, pairs@.skip(i as int), add_next, ev as int);
                &&& full.ladder == rest.ladder
                &&& full.deltas == deltas_view(deltas@) + rest.deltas
                &&& full.updated == (updated || rest.updated)
            }),
        decreases pairs@.len() - i,
    {
        let ghost pre_lad = lad@;
        let ghost pre_deltas = deltas@;
        let ghost pre_add_next = add_next;
        let ghost pre_updated = updated;
        let ghost suffix = pairs@.skip(i as int);
        let ghost rest = apply_side(pre_lad, bestv, suffix, pre_add_next, ev as int);
        proof {
            assert(suffix[0] == pairs@[i as int]);
            assert(suffix.drop_first() =~= pairs@.skip(i + 1 as int));
            lemma_apply_side_step(pre_lad, bestv, suffix, pre_add_next, ev as int);
        }
        let pq = pairs[i];
        proof {
            assert(pq == pairs@[i as int]);
        }
        let p = pq.0;
        let q = pq.1;
        let ghost pm = p as int;
        let ghost qm = q as int;
        let ghost hit_m = (bestv == Some(pm) || pre_add_next) && pre_lad.contains_key(pm);
        let ghost next_add_m: bool = if hit_m {
            qm == 0
        } else {
            pre_add_next
        };
        let ghost lad1_m = if qm == 0 {
            pre_lad.remove(pm)
        } else {
            pre_lad.insert(pm, qm)
        };
        let ghost rest2 = apply_side(lad1_m, bestv, pairs@.skip(i + 1 as int), next_add_m, ev as int);
        proof {
            assert(rest.ladder == rest2.ladder);
            assert(rest.updated == (hit_m || rest2.updated));
            if hit_m {
                assert(rest.deltas == seq![(pm, pre_lad[pm] - qm, ev as int)] + rest2.deltas);
            } else {
                assert(rest.deltas == rest2.deltas);
            }
        }
        let best_hit = match best {
            Some(b) => b == p,
            Option::None => false,
        };
        proof {
            assert(best_hit == (bestv == Some(pm)));
        }
        let hit_position = best_hit || add_next;
        if hit_position {
            match lad.get(p) {
                Some(current_volume) => {
                    proof {
                        lad.lemma_inv_map_ok();
                        assert(hit_m);
                        assert(current_volume as int == pre_lad[pm]);
                    }
                    updated = true;
                    let volume_delta = current_volume - q;
                    deltas.push(LevelDelta::new(p, volume_delta, ev));
                    add_next = q == 0;
                    proof {
                        assert(deltas_view(deltas@) =~= deltas_view(pre_deltas).push(
                            (pm, pre_lad[pm] - qm, ev as int),
                        ));
                        assert(deltas_view(pre_deltas) + (seq![(pm, pre_lad[pm] - qm, ev as int)]
                            + rest2.deltas) =~= deltas_view(deltas@) + rest2.deltas);
                        assert(full.deltas == deltas_view(deltas@) + rest2.deltas);
                        assert(add_next == next_add_m);
                    }
                },
                Option::None => {
                    proof {
                        assert(!pre_lad.contains_key(pm));
                        assert(!hit_m);
                        assert(full.deltas == deltas_view(deltas@) + rest2.deltas);
                    }
                },
            }
        } else {
            proof {
                assert(!(bestv == Some(pm) || pre_add_next));
                assert(!hit_m);
                assert(full.deltas == deltas_view(deltas@) + rest2.deltas);
            }
        }
        if q == 0 {
            lad.remove(p);
        } else {
            lad.set(p, q);
        }
        proof {
            assert(lad@ == lad1_m);
            assert(full.ladder == rest2.ladder);
            assert(full.updated == (updated || rest2.updated));
        }
        i += 1;
    }
    proof {
        assert(pairs@.skip(i as int) =~= Seq::<(i128, i128)>::empty());
        lemma_apply_side_empty(lad@, bestv, pairs@.skip(i as int), add_next, ev as int);
        let rest = apply_side(lad@, bestv, pairs@.skip(i as int), add_next, ev as int);
        assert(deltas_view(deltas@) + rest.deltas =~= deltas_view(deltas@));
    }
    updated
}

/// Scans a delta list for one trade; see [`match_deltas`]. The staleness
/// comparison `delta_time > trade_time + 100` is evaluated without
/// overflow as `delta_time > 100 && delta_time - 100 > trade_time`.
fn match_deltas_exec(ds: &mut Vec<LevelDelta>, price: i128, qty: i128, te: u64) -> (r: u64)
    ensures
        ({
            let out = match_deltas(
                deltas_view(old(ds)@),
                price as int,
                qty as int,
                te as int,
            );
            &&& r as int == out.result
            &&& deltas_view(final(ds)@) == out.deltas
        }),
{
    let ghost ds0 = deltas_view(ds@);
    let ghost full = match_deltas(ds0, price as int, qty as int, te as int);
    let mut i: usize = 0;
    proof {
        assert(ds0.skip(0) =~= ds0);
        let rest = match_deltas(ds0.skip(0), price as int, qty as int, te as int);
        assert(rest == full);
        assert(ds0.take(0) + rest.deltas =~= rest.deltas);
    }
    while i < ds.len()
        invariant
            ds0 == deltas_view(old(ds)@),
            ds0 == deltas_view(ds@),
            full == match_deltas(ds0, price as int, qty as int, te as int),
            0 <= i <= ds@.len(),
            ({
                let rest = match_deltas(ds0.skip(i as int), price as int, qty as int, te as int);
                &&& full.result == rest.result
                &&& full.deltas == ds0.take(i as int) + rest.deltas
            }),
        decreases ds@.len() - i,
    {
        let ghost suffix = ds0.skip(i as int);
        proof {
            assert(suffix[0] == ds0[i as int]);
            assert(suffix.drop_first() =~= ds0.skip(i + 1 as int));
            lemma_match_deltas_step(suffix, price as int, qty as int, te as int);
        }
        let d = ds[i];
        proof {
            assert(d == ds@[i as int]);
            assert(d@ == ds0[i as int]);
        }
        if d.volume < 0 {
            proof {
                let rest2 = match_deltas(ds0.skip(i + 1 as int), price as int, qty as int, te as int);
                assert(ds0.take(i as int) + (seq![ds0[i as int]] + rest2.deltas) =~= ds0.take(
                    i + 1 as int,
                ) + rest2.deltas);
            }
            i += 1;
            continue ;
        }
        if d.event_time > 100 && d.event_time - 100 > te {
            proof {
                assert(ds0.take(i as int) + ds0.skip(i as int) =~= ds0);
            }
            return 1;
        }
        if price == d.price && qty == d.volume {
            let matched = LevelDelta::new(d.price, d.volume - qty, d.event_time);
            let t = d.event_time;
            ds[i] = matched;
            proof {
                assert(deltas_view(ds@) =~= ds0.update(
                    i as int,
                    (price as int, 0int, t as int),
                ));
                assert(ds0.take(i as int) + (seq![(price as int, 0int, t as int)]
                    + suffix.drop_first()) =~= ds0.update(i as int, (price as int, 0int, t as int)));
            }
            return t;
        }
        proof {
            let rest2 = match_deltas(ds0.skip(i + 1 as int), price as int, qty as int, te as int);
            assert(ds0.take(i as int) + (seq![ds0[i as int]] + rest2.deltas) =~= ds0.take(
                i + 1 as int,
            ) + rest2.deltas);
        }
        i += 1;
    }
    proof {
        assert(ds0.skip(i as int) =~= Seq::<(int, int, int)>::empty());
        lemma_match_deltas_empty(ds0.skip(i as int), price as int, qty as int, te as int);
        let rest = match_deltas(ds0.skip(i as int), price as int, qty as int, te as int);
        assert(ds0.take(i as int) + rest.deltas =~= ds0);
        assert(ds0 == deltas_view(ds@));
    }
    0
}

} // verus!
