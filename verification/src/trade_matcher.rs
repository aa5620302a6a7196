//! Per-side trade reconciliation: a FIFO queue of pending trades matched
//! against the book's best-level deltas, and the table of outcomes.
//!
//! A row of the outcome table is `(trade_id, trade_event_time,
//! outcome_event_time)`; the outcome is `1` for a trade dropped as stale,
//! `2` for one purged at shutdown, and the matched book event time
//! otherwise. The table has set semantics: inserting a row it already
//! holds changes nothing.

use vstd::prelude::*;

use crate::messages::TradeUpdate;
use crate::orderbook::{match_deltas, OrderBook};

verus! {

/// The book side a matcher reconciles against.
#[derive(Clone, Copy, Debug, PartialEq, Eq, Structural)]
pub enum TradeType {
    Bid,
    Ask,
}

/// A row of the outcome table.
pub struct TradeRecord {
    trade_id: String,
    trade_event_time: u64,
    outcome_event_time: u64,
}

impl View for TradeRecord {
    type V = (Seq<char>, int, int);

    closed spec fn view(&self) -> (Seq<char>, int, int) {
        (self.trade_id@, self.trade_event_time as int, self.outcome_event_time as int)
    }
}

impl TradeRecord {
    pub fn trade_id(&self) -> (r: &String)
        ensures
            r@ == self@.0,
    {
        &self.trade_id
    }

    pub fn trade_event_time(&self) -> (r: u64)
        ensures
            r as int == self@.1,
    {
        self.trade_event_time
    }

    pub fn outcome_event_time(&self) -> (r: u64)
        ensures
            r as int == self@.2,
    {
        self.outcome_event_time
    }
}

pub open spec fn recs_view(rs: Seq<TradeRecord>) -> Seq<(Seq<char>, int, int)> {
    rs.map_values(|r: TradeRecord| r@)
}

/// No two rows of the table are equal.
pub open spec fn no_dup_rows(rs: Seq<(Seq<char>, int, int)>) -> bool {
    forall|i: int, j: int| 0 <= i < j < rs.len() ==> rs[i] != rs[j]
}

/// Set-insert of one row.
pub open spec fn insert_rec(rs: Seq<(Seq<char>, int, int)>, r: (Seq<char>, int, int)) -> Seq<
    (Seq<char>, int, int),
> {
    if rs.contains(r) {
        rs
    } else {
        rs.push(r)
    }
}

/// One row per identifier, all with the same timestamps.
pub open spec fn ids_records(ids: Seq<Seq<char>>, t: int, o: int) -> Seq<(Seq<char>, int, int)> {
    ids.map_values(|id: Seq<char>| (id, t, o))
}

/// The rows a trade contributes when recorded with outcome `o`.
pub open spec fn records_of(t: TradeUpdate, o: int) -> Seq<(Seq<char>, int, int)> {
    ids_records(t.ids(), t.event_time as int, o)
}

/// Set-insert of the rows of `new`, in order.
pub open spec fn insert_all(
    rs: Seq<(Seq<char>, int, int)>,
    new: Seq<(Seq<char>, int, int)>,
) -> Seq<(Seq<char>, int, int)>
    decreases new.len(),
{
    if new.len() == 0 {
        rs
    } else {
        insert_all(insert_rec(rs, new[0]), new.drop_first())
    }
}

proof fn lemma_insert_all_snoc(
    rs: Seq<(Seq<char>, int, int)>,
    s: Seq<(Seq<char>, int, int)>,
    x: (Seq<char>, int, int),
)
    ensures
        insert_all(rs, s.push(x)) == insert_rec(insert_all(rs, s), x),
    decreases s.len(),
{
    reveal_with_fuel(insert_all, 3);
    if s.len() == 0 {
        assert(s.push(x)[0] == x);
        assert(s.push(x).drop_first() =~= Seq::<(Seq<char>, int, int)>::empty());
    } else {
        assert(s.push(x)[0] == s[0]);
        assert(s.push(x).drop_first() =~= s.drop_first().push(x));
        lemma_insert_all_snoc(insert_rec(rs, s[0]), s.drop_first(), x);
    }
}

proof fn lemma_insert_all_concat(
    rs: Seq<(Seq<char>, int, int)>,
    a: Seq<(Seq<char>, int, int)>,
    b: Seq<(Seq<char>, int, int)>,
)
    ensures
        insert_all(rs, a + b) == insert_all(insert_all(rs, a), b),
    decreases a.len(),
{
    reveal_with_fuel(insert_all, 3);
    if a.len() == 0 {
        assert(a + b =~= b);
    } else {
        assert((a + b)[0] == a[0]);
        assert((a + b).drop_first() =~= a.drop_first() + b);
        lemma_insert_all_concat(insert_rec(rs, a[0]), a.drop_first(), b);
    }
}

/// What walking the whole queue against a delta list produces: the trades
/// left pending, the delta list afterwards, the matched event times in
/// queue order, and the outcome rows to record, in order.
pub ghost struct QueueOut {
    pub queue: Seq<TradeUpdate>,
    pub deltas: Seq<(int, int, int)>,
    pub events: Seq<int>,
    pub records: Seq<(Seq<char>, int, int)>,
}

/// Each queued trade, oldest first, is matched against the current delta
/// list. A result of `1` drops the trade and records it; a result above
/// `1` removes it, records it, and reports the event time; a result of
/// `0` leaves it queued.
pub open spec fn match_queue(q: Seq<TradeUpdate>, ds: Seq<(int, int, int)>) -> QueueOut
    decreases q.len(),
{
    if q.len() == 0 {
        QueueOut { queue: q, deltas: ds, events: Seq::empty(), records: Seq::empty() }
    } else {
        let t = q[0];
        let m = match_deltas(ds, t.price as int, t.quantity as int, t.event_time as int);
        let rest = match_queue(q.drop_first(), m.deltas);
        if m.result == 1 {
            QueueOut {
                queue: rest.queue,
                deltas: rest.deltas,
                events: rest.events,
                records: records_of(t, 1) + rest.records,
            }
        } else if m.result > 1 {
            QueueOut {
                queue: rest.queue,
                deltas: rest.deltas,
                events: seq![m.result] + rest.events,
                records: records_of(t, m.result) + rest.records,
            }
        } else {
            QueueOut {
                queue: seq![t] + rest.queue,
                deltas: rest.deltas,
                events: rest.events,
                records: rest.records,
            }
        }
    }
}

/// The rows pending insertion: one group per removed trade, in order.
pub open spec fn pending_records(ps: Seq<(Vec<String>, u64, u64)>) -> Seq<(Seq<char>, int, int)>
    decreases ps.len(),
{
    if ps.len() == 0 {
        Seq::empty()
    } else {
        ids_records(ps[0].0@.map_values(|s: String| s@), ps[0].1 as int, ps[0].2 as int)
            + pending_records(ps.drop_first())
    }
}

proof fn lemma_pending_records_snoc(ps: Seq<(Vec<String>, u64, u64)>, x: (Vec<String>, u64, u64))
    ensures
        pending_records(ps.push(x)) == pending_records(ps) + ids_records(
            x.0@.map_values(|s: String| s@),
            x.1 as int,
            x.2 as int,
        ),
    decreases ps.len(),
{
    reveal_with_fuel(pending_records, 3);
    if ps.len() == 0 {
        assert(ps.push(x)[0] == x);
        assert(ps.push(x).drop_first() =~= Seq::<(Vec<String>, u64, u64)>::empty());
        assert(pending_records(ps.push(x)) =~= pending_records(ps) + ids_records(
            x.0@.map_values(|s: String| s@),
            x.1 as int,
            x.2 as int,
        ));
    } else {
        assert(ps.push(x)[0] == ps[0]);
        assert(ps.push(x).drop_first() =~= ps.drop_first().push(x));
        lemma_pending_records_snoc(ps.drop_first(), x);
        assert(pending_records(ps.push(x)) =~= pending_records(ps) + ids_records(
            x.0@.map_values(|s: String| s@),
            x.1 as int,
            x.2 as int,
        ));
    }
}

/// The rows a purge of the queue contributes: every trade with outcome `2`.
pub open spec fn purge_records(q: Seq<TradeUpdate>) -> Seq<(Seq<char>, int, int)>
    decreases q.len(),
{
    if q.len() == 0 {
        Seq::empty()
    } else {
        records_of(q[0], 2) + purge_records(q.drop_first())
    }
}

/// How many rows of the table carry this id.
pub open spec fn count_id(rs: Seq<(Seq<char>, int, int)>, id: Seq<char>) -> int
    decreases rs.len(),
{
    if rs.len() == 0 {
        0
    } else {
        (if rs[0].0 == id {
            1int
        } else {
            0int
        }) + count_id(rs.drop_first(), id)
    }
}

proof fn lemma_count_id_snoc(s: Seq<(Seq<char>, int, int)>, x: (Seq<char>, int, int), id: Seq<char>)
    ensures
        count_id(s.push(x), id) == count_id(s, id) + (if x.0 == id {
            1int
        } else {
            0int
        }),
    decreases s.len(),
{
    reveal_with_fuel(count_id, 3);
    if s.len() == 0 {
        assert(s.push(x)[0] == x);
        assert(s.push(x).drop_first() =~= Seq::<(Seq<char>, int, int)>::empty());
    } else {
        assert(s.push(x)[0] == s[0]);
        assert(s.push(x).drop_first() =~= s.drop_first().push(x));
        lemma_count_id_snoc(s.drop_first(), x, id);
    }
}

/// Row `k` survives the cleanup's first pass: its id occurs exactly once
/// in the table, or its outcome is neither dropped (`1`) nor purged (`2`).
pub open spec fn row_eligible(rs: Seq<(Seq<char>, int, int)>, k: int) -> bool {
    0 <= k < rs.len() && (count_id(rs, rs[k].0) == 1 || (rs[k].2 != 1 && rs[k].2 != 2))
}

/// Some row with this id survives the cleanup's first pass.
pub open spec fn kept_id(rs: Seq<(Seq<char>, int, int)>, id: Seq<char>) -> bool {
    exists|k: int| #[trigger] row_eligible(rs, k) && rs[k].0 == id
}

/// `a` prevails over `b`: a greater outcome, or the same outcome with no
/// older trade event time.
pub open spec fn wins(a: (Seq<char>, int, int), b: (Seq<char>, int, int)) -> bool {
    a.2 > b.2 || (a.2 == b.2 && a.1 >= b.1)
}

/// `r` is the one row the cleanup keeps for `id`: a surviving row of that
/// id that prevails over every surviving row of that id.
pub open spec fn is_winner(
    rs: Seq<(Seq<char>, int, int)>,
    id: Seq<char>,
    r: (Seq<char>, int, int),
) -> bool {
    &&& exists|k: int| #[trigger] row_eligible(rs, k) && rs[k] == r
    &&& r.0 == id
    &&& forall|k: int| #[trigger] row_eligible(rs, k) && rs[k].0 == id ==> wins(r, rs[k])
}

/// Some row of the table carries this id.
pub open spec fn has_id(rs: Seq<(Seq<char>, int, int)>, id: Seq<char>) -> bool {
    exists|j: int| 0 <= j < rs.len() && (#[trigger] rs[j]).0 == id
}

/// Row `m` is the first of its id.
pub open spec fn first_occ(rs: Seq<(Seq<char>, int, int)>, m: int) -> bool {
    0 <= m < rs.len() && forall|j: int| 0 <= j < m ==> (#[trigger] rs[j]).0 != rs[m].0
}

proof fn lemma_first_occ_exists(rs: Seq<(Seq<char>, int, int)>, k: int)
    requires
        0 <= k < rs.len(),
    ensures
        exists|m: int| 0 <= m <= k && #[trigger] first_occ(rs, m) && rs[m].0 == rs[k].0,
    decreases k,
{
    if forall|j: int| 0 <= j < k ==> (#[trigger] rs[j]).0 != rs[k].0 {
        assert(first_occ(rs, k));
    } else {
        let j = choose|j: int| 0 <= j < k && (#[trigger] rs[j]).0 == rs[k].0;
        lemma_first_occ_exists(rs, j);
    }
}

/// Law: a trade id recorded with any matched outcome survives the cleanup.
pub proof fn lemma_matched_id_kept(rs: Seq<(Seq<char>, int, int)>, k: int)
    requires
        0 <= k < rs.len(),
        rs[k].2 > 2,
    ensures
        kept_id(rs, rs[k].0),
{
    assert(row_eligible(rs, k));
}

/// Law: the surviving row of an id with a matched outcome carries the
/// greatest outcome recorded for that id, and that outcome was recorded.
pub proof fn lemma_winner_has_max_outcome(
    rs: Seq<(Seq<char>, int, int)>,
    id: Seq<char>,
    r: (Seq<char>, int, int),
    k: int,
)
    requires
        is_winner(rs, id, r),
        0 <= k < rs.len(),
        rs[k].0 == id,
        rs[k].2 > 2,
    ensures
        r.2 >= rs[k].2,
        exists|m: int| 0 <= m < rs.len() && (#[trigger] rs[m]).0 == id && rs[m].2 == r.2,
{
    assert(row_eligible(rs, k));
    let w = choose|w: int| #[trigger] row_eligible(rs, w) && rs[w] == r;
    assert(0 <= w < rs.len() && rs[w].0 == id && rs[w].2 == r.2);
}

/// Law: an id recorded more than once, every time as dropped or purged,
/// does not survive the cleanup.
pub proof fn lemma_repeated_unmatched_dropped(rs: Seq<(Seq<char>, int, int)>, id: Seq<char>)
    requires
        count_id(rs, id) >= 2,
        forall|k: int| 0 <= k < rs.len() && (#[trigger] rs[k]).0 == id ==> rs[k].2 == 1 || rs[k].2
            == 2,
    ensures
        !kept_id(rs, id),
{
    if kept_id(rs, id) {
        let k = choose|k: int| #[trigger] row_eligible(rs, k) && rs[k].0 == id;
        assert(count_id(rs, rs[k].0) == count_id(rs, id));
        assert(rs[k].2 == 1 || rs[k].2 == 2);
        assert(false);
    }
}

/// The runs of `s` that remain when a run of value `prev` is already
/// open: an element differing from the one before it starts a new run.
pub open spec fn count_runs_from(s: Seq<u64>, prev: Option<u64>) -> int
    decreases s.len(),
{
    if s.len() == 0 {
        0
    } else {
        (if prev != Some(s[0]) {
            1int
        } else {
            0int
        }) + count_runs_from(s.drop_first(), Some(s[0]))
    }
}

/// The number of maximal runs of equal consecutive timestamps.
pub open spec fn count_stamp_runs(s: Seq<u64>) -> int {
    count_runs_from(s, Option::None)
}

fn count_id_exec(rows: &Vec<TradeRecord>, id: &String) -> (c: usize)
    ensures
        c as int == count_id(recs_view(rows@), id@),
        c <= rows@.len(),
{
    let ghost v = recs_view(rows@);
    let mut c: usize = 0;
    let mut i: usize = 0;
    proof {
        assert(v.take(0) =~= Seq::<(Seq<char>, int, int)>::empty());
    }
    while i < rows.len()
        invariant
            v == recs_view(rows@),
            0 <= i <= v.len(),
            c <= i,
            c as int == count_id(v.take(i as int), id@),
        decreases v.len() - i,
    {
        let r = &rows[i];
        proof {
            assert(r@ == v[i as int]);
            assert(v.take(i + 1 as int) =~= v.take(i as int).push(v[i as int]));
            lemma_count_id_snoc(v.take(i as int), v[i as int], id@);
        }
        if r.trade_id == *id {
            c += 1;
        }
        i += 1;
    }
    proof {
        assert(v.take(v.len() as int) =~= v);
    }
    c
}

fn row_eligible_exec(rows: &Vec<TradeRecord>, k: usize) -> (r: bool)
    requires
        k < rows@.len(),
    ensures
        r == row_eligible(recs_view(rows@), k as int),
{
    let rec = &rows[k];
    proof {
        assert(rec@ == recs_view(rows@)[k as int]);
    }
    if rec.outcome_event_time != 1 && rec.outcome_event_time != 2 {
        return true;
    }
    let c = count_id_exec(rows, &rec.trade_id);
    c == 1
}

fn is_first_occurrence(rows: &Vec<TradeRecord>, i: usize) -> (r: bool)
    requires
        i < rows@.len(),
    ensures
        r == first_occ(recs_view(rows@), i as int),
{
    let ghost v = recs_view(rows@);
    let id = &rows[i].trade_id;
    proof {
        assert(rows@[i as int]@ == v[i as int]);
    }
    let mut j: usize = 0;
    while j < i
        invariant
            v == recs_view(rows@),
            i < v.len(),
            id@ == v[i as int].0,
            0 <= j <= i,
            forall|m: int| 0 <= m < j ==> (#[trigger] v[m]).0 != v[i as int].0,
        decreases i - j,
    {
        let r = &rows[j];
        proof {
            assert(r@ == v[j as int]);
        }
        if r.trade_id == *id {
            return false;
        }
        j += 1;
    }
    true
}

/// The index of the row the cleanup keeps for the id of row `i`, if any
/// row of that id survives the first pass.
fn find_winner(rows: &Vec<TradeRecord>, i: usize) -> (r: Option<usize>)
    requires
        i < rows@.len(),
    ensures
        ({
            let v = recs_view(rows@);
            match r {
                Some(b) => b < v.len() && is_winner(v, v[i as int].0, v[b as int]),
                Option::None => !kept_id(v, v[i as int].0),
            }
        }),
{
    let ghost v = recs_view(rows@);
    let id = &rows[i].trade_id;
    proof {
        assert(rows@[i as int]@ == v[i as int]);
    }
    let mut best: Option<usize> = None;
    let mut k: usize = 0;
    while k < rows.len()
        invariant
            v == recs_view(rows@),
            i < v.len(),
            id@ == v[i as int].0,
            0 <= k <= v.len(),
            match best {
                Option::None => forall|m: int|
                    0 <= m < k ==> !(#[trigger] row_eligible(v, m) && v[m].0 == id@),
                Some(b) => b < k && row_eligible(v, b as int) && v[b as int].0 == id@ && forall|
                    m: int,
                |
                    0 <= m < k && #[trigger] row_eligible(v, m) && v[m].0 == id@ ==> wins(
                        v[b as int],
                        v[m],
                    ),
            },
        decreases v.len() - k,
    {
        let r = &rows[k];
        proof {
            assert(r@ == v[k as int]);
        }
        if r.trade_id == *id {
            if row_eligible_exec(rows, k) {
                match best {
                    Option::None => { best = Some(k) },
                    Some(b) => {
                        let cur = &rows[b];
                        proof {
                            assert(cur@ == v[b as int]);
                        }
                        if r.outcome_event_time > cur.outcome_event_time || (r.outcome_event_time
                            == cur.outcome_event_time && r.trade_event_time
                            > cur.trade_event_time) {
                            best = Some(k);
                        }
                    },
                }
            }
        }
        k += 1;
    }
    proof {
        match best {
            Option::None => {
                if kept_id(v, id@) {
                    let m = choose|m: int| #[trigger] row_eligible(v, m) && v[m].0 == id@;
                    assert(!(row_eligible(v, m) && v[m].0 == id@));
                }
            },
            Some(b) => {
                assert(row_eligible(v, b as int) && v[b as int] == v[b as int]);
            },
        }
    }
    best
}

pub struct TradeMatcher {
    trade_type: TradeType,
    trade_queue: Vec<TradeUpdate>,
    trade_results: Vec<TradeRecord>,
}

impl TradeMatcher {
    pub closed spec fn spec_trade_type(&self) -> TradeType {
        self.trade_type
    }

    pub closed spec fn spec_queue(&self) -> Seq<TradeUpdate> {
        self.trade_queue@
    }

    pub closed spec fn spec_results(&self) -> Seq<(Seq<char>, int, int)> {
        recs_view(self.trade_results@)
    }

    pub closed spec fn wf(&self) -> bool {
        no_dup_rows(self.spec_results())
    }

    pub fn new(trade_type: TradeType) -> (r: Self)
        ensures
            r.wf(),
            r.spec_trade_type() == trade_type,
            r.spec_queue() == Seq::<TradeUpdate>::empty(),
            r.spec_results() == Seq::<(Seq<char>, int, int)>::empty(),
    {
        let r = Self { trade_type, trade_queue: Vec::new(), trade_results: Vec::new() };
        proof {
            assert(r.spec_results() =~= Seq::<(Seq<char>, int, int)>::empty());
        }
        r
    }

    /// Appends one trade to the pending queue.
    pub fn add_trade(&mut self, trade: TradeUpdate)
        requires
            old(self).wf(),
        ensures
            final(self).wf(),
            final(self).spec_queue() == old(self).spec_queue().push(trade),
            final(self).spec_results() == old(self).spec_results(),
            final(self).spec_trade_type() == old(self).spec_trade_type(),
    {
        self.trade_queue.push(trade);
    }

    /// The pending queue's length.
    pub fn queue_len(&self) -> (r: usize)
        ensures
            r == self.spec_queue().len(),
    {
        self.trade_queue.len()
    }

    /// The outcome table as recorded so far.
    pub fn results(&self) -> (r: &Vec<TradeRecord>)
        ensures
            recs_view(r@) == self.spec_results(),
    {
        &self.trade_results
    }

    /// Set-inserts one outcome row.
    fn insert_trade_record(&mut self, id: &String, trade_event_time: u64, event_time: u64)
        requires
            old(self).wf(),
        ensures
            final(self).wf(),
            final(self).spec_results() == insert_rec(
                old(self).spec_results(),
                (id@, trade_event_time as int, event_time as int),
            ),
            final(self).spec_queue() == old(self).spec_queue(),
            final(self).spec_trade_type() == old(self).spec_trade_type(),
    {
        let ghost rs0 = self.spec_results();
        let ghost row = (id@, trade_event_time as int, event_time as int);
        let mut i: usize = 0;
        while i < self.trade_results.len()
            invariant
                self.wf(),
                rs0 == recs_view(self.trade_results@),
                rs0 == old(self).spec_results(),
                self.trade_queue@ == old(self).trade_queue@,
                self.trade_type == old(self).spec_trade_type(),
                row == (id@, trade_event_time as int, event_time as int),
                0 <= i <= rs0.len(),
                forall|j: int| 0 <= j < i ==> rs0[j] != row,
            decreases rs0.len() - i,
        {
            let r = &self.trade_results[i];
            proof {
                assert(r@ == rs0[i as int]);
            }
            if r.trade_id == *id && r.trade_event_time == trade_event_time
                && r.outcome_event_time == event_time {
                proof {
                    assert(rs0[i as int] == row);
                    assert(rs0.contains(row));
                }
                return ;
            }
            i += 1;
        }
        proof {
            if rs0.contains(row) {
                let j = choose|j: int| 0 <= j < rs0.len() && rs0[j] == row;
                assert(rs0[j] != row);
            }
        }
        self.trade_results.push(
            TradeRecord {
                trade_id: id.clone(),
                trade_event_time,
                outcome_event_time: event_time,
            },
        );
        proof {
            assert(recs_view(self.trade_results@) =~= rs0.push(row));
        }
    }

    /// Records one outcome row per identifier of a removed trade, all with
    /// the trade's event time and the given outcome.
    fn insert_trade_ids(&mut self, ids: &Vec<String>, trade_event_time: u64, event_time: u64)
        requires
            old(self).wf(),
        ensures
            final(self).wf(),
            final(self).spec_results() == insert_all(
                old(self).spec_results(),
                ids_records(
                    ids@.map_values(|s: String| s@),
                    trade_event_time as int,
                    event_time as int,
                ),
            ),
            final(self).spec_queue() == old(self).spec_queue(),
            final(self).spec_trade_type() == old(self).spec_trade_type(),
    {
        let ghost rs0 = self.spec_results();
        let ghost rows = ids_records(
            ids@.map_values(|s: String| s@),
            trade_event_time as int,
            event_time as int,
        );
        let mut i: usize = 0;
        proof {
            assert(rows.take(0) =~= Seq::<(Seq<char>, int, int)>::empty());
        }
        while i < ids.len()
            invariant
                old(self).wf(),
                self.wf(),
                rs0 == old(self).spec_results(),
                rows == ids_records(
                    ids@.map_values(|s: String| s@),
                    trade_event_time as int,
                    event_time as int,
                ),
                0 <= i <= ids@.len(),
                rows.len() == ids@.len(),
                self.spec_results() == insert_all(rs0, rows.take(i as int)),
                self.spec_queue() == old(self).spec_queue(),
                self.spec_trade_type() == old(self).spec_trade_type(),
            decreases ids@.len() - i,
        {
            let ghost pre = self.spec_results();
            let id = &ids[i];
            self.insert_trade_record(id, trade_event_time, event_time);
            proof {
                assert(rows[i as int] == (id@, trade_event_time as int, event_time as int));
                assert(rows.take(i + 1 as int) =~= rows.take(i as int).push(rows[i as int]));
                lemma_insert_all_snoc(rs0, rows.take(i as int), rows[i as int]);
            }
            i += 1;
        }
        proof {
            assert(rows.take(rows.len() as int) =~= rows);
        }
    }

    /// Walks the queue once against the book's deltas for this side:
    /// dropped and matched trades leave the queue and are recorded, the
    /// rest stay pending; returns the matched event times in queue order.
    /// Implements [`match_queue`].
    pub fn match_trades(&mut self, orderbook: &mut OrderBook) -> (r: Vec<u64>)
        requires
            old(self).wf(),
            old(orderbook).wf(),
        ensures
            final(self).wf(),
            final(orderbook).wf(),
            final(self).spec_trade_type() == old(self).spec_trade_type(),
            ({
                let ds0 = if old(self).spec_trade_type() == TradeType::Bid {
                    old(orderbook).spec_bid_deltas()
                } else {
                    old(orderbook).spec_ask_deltas()
                };
                let out = match_queue(old(self).spec_queue(), ds0);
                &&& final(self).spec_queue() == out.queue
                &&& r@.map_values(|e: u64| e as int) == out.events
                &&& final(self).spec_results() == insert_all(old(self).spec_results(), out.records)
                &&& (if old(self).spec_trade_type() == TradeType::Bid {
                    final(orderbook).spec_bid_deltas() == out.deltas
                        && final(orderbook).spec_ask_deltas() == old(orderbook).spec_ask_deltas()
                } else {
                    final(orderbook).spec_ask_deltas() == out.deltas
                        && final(orderbook).spec_bid_deltas() == old(orderbook).spec_bid_deltas()
                })
            }),
            final(orderbook).spec_bids() == old(orderbook).spec_bids(),
            final(orderbook).spec_asks() == old(orderbook).spec_asks(),
            final(orderbook).spec_last_update_id() == old(orderbook).spec_last_update_id(),
            final(orderbook).spec_first_update_id() == old(orderbook).spec_first_update_id(),
            final(orderbook).spec_final_update_id() == old(orderbook).spec_final_update_id(),
            final(orderbook).spec_best_bid_updated() == old(orderbook).spec_best_bid_updated(),
            final(orderbook).spec_best_ask_updated() == old(orderbook).spec_best_ask_updated(),
    {
        let ghost q0 = self.trade_queue@;
        let ghost ds0 = if self.trade_type == TradeType::Bid {
            orderbook.spec_bid_deltas()
        } else {
            orderbook.spec_ask_deltas()
        };
        let ghost full = match_queue(q0, ds0);
        let mut kept: Vec<TradeUpdate> = Vec::new();
        let mut event_times: Vec<u64> = Vec::new();
        let mut trades_to_insert: Vec<(Vec<String>, u64, u64)> = Vec::new();
        let ghost mut k: int = 0;
        proof {
            assert(q0.skip(0) =~= q0);
            assert(kept@ + match_queue(q0, ds0).queue =~= match_queue(q0, ds0).queue);
            assert(event_times@.map_values(|e: u64| e as int) + full.events =~= full.events);
            assert(pending_records(trades_to_insert@) =~= Seq::<(Seq<char>, int, int)>::empty());
            assert(pending_records(trades_to_insert@) + full.records =~= full.records);
        }
        while self.trade_queue.len() > 0
            invariant
                orderbook.wf(),
                self.wf(),
                0 <= k <= q0.len(),
                self.trade_queue@ == q0.skip(k),
                self.trade_type == old(self).spec_trade_type(),
                self.trade_results@ == old(self).trade_results@,
                full == match_queue(q0, ds0),
                orderbook.spec_bids() == old(orderbook).spec_bids(),
                orderbook.spec_asks() == old(orderbook).spec_asks(),
                orderbook.spec_last_update_id() == old(orderbook).spec_last_update_id(),
                orderbook.spec_first_update_id() == old(orderbook).spec_first_update_id(),
                orderbook.spec_final_update_id() == old(orderbook).spec_final_update_id(),
                orderbook.spec_best_bid_updated() == old(orderbook).spec_best_bid_updated(),
                orderbook.spec_best_ask_updated() == old(orderbook).spec_best_ask_updated(),
                (if self.trade_type == TradeType::Bid {
                    orderbook.spec_ask_deltas() == old(orderbook).spec_ask_deltas()
                } else {
                    orderbook.spec_bid_deltas() == old(orderbook).spec_bid_deltas()
                }),
                ({
                    let cur = if self.trade_type == TradeType::Bid {
                        orderbook.spec_bid_deltas()
                    } else {
                        orderbook.spec_ask_deltas()
                    };
                    let rest = match_queue(q0.skip(k), cur);
                    &&& full.queue == kept@ + rest.queue
                    &&& full.deltas == rest.deltas
                    &&& full.events == event_times@.map_values(|e: u64| e as int) + rest.events
                    &&& full.records == pending_records(trades_to_insert@) + rest.records
                }),
            decreases self.trade_queue@.len(),
        {
            let ghost cur_ds = if self.trade_type == TradeType::Bid {
                orderbook.spec_bid_deltas()
            } else {
                orderbook.spec_ask_deltas()
            };
            let ghost suffix = q0.skip(k);
            let ghost rest = match_queue(suffix, cur_ds);
            let trade = self.trade_queue.remove(0);
            proof {
                assert(trade == suffix[0]);
                assert(self.trade_queue@ =~= q0.skip(k + 1));
                assert(suffix.drop_first() =~= q0.skip(k + 1));
            }
            let te = orderbook.match_and_process_trade(&trade, self.trade_type);
            let ghost m = match_deltas(
                cur_ds,
                trade.price as int,
                trade.quantity as int,
                trade.event_time as int,
            );
            let ghost rest2 = match_queue(q0.skip(k + 1), m.deltas);
            proof {
                assert(te as int == m.result);
                if m.result == 1 {
                    assert(rest.queue == rest2.queue);
                    assert(rest.deltas == rest2.deltas);
                    assert(rest.events == rest2.events);
                    assert(rest.records == records_of(trade, 1) + rest2.records);
                } else if m.result > 1 {
                    assert(rest.queue == rest2.queue);
                    assert(rest.deltas == rest2.deltas);
                    assert(rest.events == seq![m.result] + rest2.events);
                    assert(rest.records == records_of(trade, m.result) + rest2.records);
                } else {
                    assert(rest.queue == seq![trade] + rest2.queue);
                    assert(rest.deltas == rest2.deltas);
                    assert(rest.events == rest2.events);
                    assert(rest.records == rest2.records);
                }
            }
            if te == 1 {
                let ghost pre_pending = trades_to_insert@;
                let ids = trade.trade_ids;
                let t_time = trade.event_time;
                trades_to_insert.push((ids, t_time, te));
                proof {
                    lemma_pending_records_snoc(pre_pending, trades_to_insert@.last());
                    assert(pending_records(trades_to_insert@) =~= pending_records(pre_pending)
                        + records_of(trade, 1));
                    assert(pending_records(trades_to_insert@) + rest2.records =~= pending_records(
                        pre_pending,
                    ) + (records_of(trade, 1) + rest2.records));
                }
            } else if te > 1 {
                let ghost pre_pending = trades_to_insert@;
                let ghost pre_events = event_times@;
                event_times.push(te);
                let ids = trade.trade_ids;
                let t_time = trade.event_time;
                trades_to_insert.push((ids, t_time, te));
                proof {
                    lemma_pending_records_snoc(pre_pending, trades_to_insert@.last());
                    assert(pending_records(trades_to_insert@) =~= pending_records(pre_pending)
                        + records_of(trade, m.result));
                    assert(pending_records(trades_to_insert@) + rest2.records =~= pending_records(
                        pre_pending,
                    ) + (records_of(trade, m.result) + rest2.records));
                    assert(event_times@.map_values(|e: u64| e as int) =~= pre_events.map_values(
                        |e: u64| e as int,
                    ).push(m.result));
                    assert(event_times@.map_values(|e: u64| e as int) + rest2.events
                        =~= pre_events.map_values(|e: u64| e as int) + (seq![m.result]
                        + rest2.events));
                }
            } else {
                let ghost pre_kept = kept@;
                kept.push(trade);
                proof {
                    assert(kept@ + rest2.queue =~= pre_kept + (seq![trade] + rest2.queue));
                }
            }
            proof {
                k = k + 1;
            }
        }
        proof {
            assert(q0.skip(k) =~= Seq::<TradeUpdate>::empty());
            let cur = if self.trade_type == TradeType::Bid {
                orderbook.spec_bid_deltas()
            } else {
                orderbook.spec_ask_deltas()
            };
            let rest = match_queue(q0.skip(k), cur);
            assert(rest.queue == Seq::<TradeUpdate>::empty());
            assert(full.queue =~= kept@);
            assert(full.deltas == cur);
            assert(full.events =~= event_times@.map_values(|e: u64| e as int));
            assert(full.records =~= pending_records(trades_to_insert@));
        }
        self.trade_queue = kept;
        let ghost rs0 = self.spec_results();
        let mut i: usize = 0;
        proof {
            assert(trades_to_insert@.take(0) =~= Seq::<(Vec<String>, u64, u64)>::empty());
            assert(self.spec_results() == insert_all(
                rs0,
                pending_records(trades_to_insert@.take(0)),
            ));
        }
        while i < trades_to_insert.len()
            invariant
                self.wf(),
                rs0 == recs_view(old(self).trade_results@),
                0 <= i <= trades_to_insert@.len(),
                self.spec_results() == insert_all(
                    rs0,
                    pending_records(trades_to_insert@.take(i as int)),
                ),
                self.spec_queue() == kept@,
                self.trade_type == old(self).spec_trade_type(),
            decreases trades_to_insert@.len() - i,
        {
            let ghost pre = self.spec_results();
            let entry = &trades_to_insert[i];
            self.insert_trade_ids(&entry.0, entry.1, entry.2);
            proof {
                let rows = ids_records(
                    entry.0@.map_values(|s: String| s@),
                    entry.1 as int,
                    entry.2 as int,
                );
                assert(trades_to_insert@.take(i + 1 as int) =~= trades_to_insert@.take(
                    i as int,
                ).push(trades_to_insert@[i as int]));
                lemma_pending_records_snoc(
                    trades_to_insert@.take(i as int),
                    trades_to_insert@[i as int],
                );
                lemma_insert_all_concat(
                    rs0,
                    pending_records(trades_to_insert@.take(i as int)),
                    rows,
                );
            }
            i += 1;
        }
        proof {
            assert(trades_to_insert@.take(trades_to_insert@.len() as int) =~= trades_to_insert@);
        }
        event_times
    }

    /// Drains the queue, recording every remaining trade with outcome `2`.
    pub fn purge(&mut self)
        requires
            old(self).wf(),
        ensures
            final(self).wf(),
            final(self).spec_queue() == Seq::<TradeUpdate>::empty(),
            final(self).spec_results() == insert_all(
                old(self).spec_results(),
                purge_records(old(self).spec_queue()),
            ),
            final(self).spec_trade_type() == old(self).spec_trade_type(),
    {
        let ghost q0 = self.trade_queue@;
        let ghost rs0 = self.spec_results();
        let ghost mut k: int = 0;
        proof {
            assert(q0.skip(0) =~= q0);
        }
        while self.trade_queue.len() > 0
            invariant
                self.wf(),
                0 <= k <= q0.len(),
                self.trade_queue@ == q0.skip(k),
                rs0 == recs_view(old(self).trade_results@),
                self.spec_results() == insert_all(rs0, purge_records(q0).take(
                    purge_records(q0).len() - purge_records(q0.skip(k)).len(),
                )),
                purge_records(q0) == purge_records(q0).take(
                    purge_records(q0).len() - purge_records(q0.skip(k)).len(),
                ) + purge_records(q0.skip(k)),
                self.trade_type == old(self).spec_trade_type(),
            decreases self.trade_queue@.len(),
        {
            let ghost suffix = q0.skip(k);
            let ghost done = purge_records(q0).take(
                purge_records(q0).len() - purge_records(suffix).len(),
            );
            let trade = self.trade_queue.remove(0);
            proof {
                assert(trade == suffix[0]);
                assert(self.trade_queue@ =~= q0.skip(k + 1));
                assert(suffix.drop_first() =~= q0.skip(k + 1));
                assert(purge_records(suffix) == records_of(trade, 2) + purge_records(
                    q0.skip(k + 1),
                ));
            }
            self.insert_trade_ids(&trade.trade_ids, trade.event_time, 2);
            proof {
                lemma_insert_all_concat(rs0, done, records_of(trade, 2));
                assert(done + records_of(trade, 2) =~= purge_records(q0).take(
                    purge_records(q0).len() - purge_records(q0.skip(k + 1)).len(),
                ));
                assert(purge_records(q0) =~= (done + records_of(trade, 2)) + purge_records(
                    q0.skip(k + 1),
                ));
                k = k + 1;
            }
        }
        proof {
            assert(q0.skip(k) =~= Seq::<TradeUpdate>::empty());
            assert(purge_records(q0.skip(k)) =~= Seq::<(Seq<char>, int, int)>::empty());
            assert(purge_records(q0).take(purge_records(q0).len() as int) =~= purge_records(q0));
        }
    }

    /// Counts the maximal runs of equal consecutive event times in the
    /// queue: the first trade always starts a run, and so does every
    /// trade whose event time differs from its predecessor's.
    pub fn number_of_timestamps(&mut self) -> (r: i32)
        requires
            old(self).spec_queue().len() <= 0x7fff_ffff,
        ensures
            *final(self) == *old(self),
            r as int == count_stamp_runs(
                old(self).spec_queue().map_values(|t: TradeUpdate| t.event_time),
            ),
    {
        let ghost ts = self.trade_queue@.map_values(|t: TradeUpdate| t.event_time);
        let ghost full = count_stamp_runs(ts);
        let mut nb_timestamps: i32 = 0;
        let mut old_timestamp: Option<u64> = None;
        let mut index: usize = 0;
        proof {
            assert(ts.skip(0) =~= ts);
        }
        while index < self.trade_queue.len()
            invariant
                ts == self.trade_queue@.map_values(|t: TradeUpdate| t.event_time),
                ts.len() <= 0x7fff_ffff,
                full == count_stamp_runs(ts),
                0 <= index <= ts.len(),
                nb_timestamps <= index,
                0 <= nb_timestamps,
                full == nb_timestamps + count_runs_from(ts.skip(index as int), old_timestamp),
            decreases ts.len() - index,
        {
            let ghost suffix = ts.skip(index as int);
            proof {
                assert(suffix[0] == ts[index as int]);
                assert(suffix.drop_first() =~= ts.skip(index + 1 as int));
            }
            let trade = &self.trade_queue[index];
            let timestamp = trade.event_time;
            proof {
                assert(timestamp == ts[index as int]);
            }
            let same = match old_timestamp {
                Some(prev) => prev == timestamp,
                None => false,
            };
            if !same {
                nb_timestamps += 1;
            }
            old_timestamp = Some(timestamp);
            index += 1;
        }
        proof {
            assert(ts.skip(index as int) =~= Seq::<u64>::empty());
        }
        nb_timestamps
    }

    /// Collapses the outcome table: a row survives the first pass when its
    /// id occurs exactly once or its outcome is a match; of the surviving
    /// rows of each id exactly one is kept, the one with the greatest
    /// outcome, ties going to the latest trade event time.
    pub fn clean_trade_results(&mut self)
        requires
            old(self).wf(),
        ensures
            final(self).wf(),
            final(self).spec_queue() == old(self).spec_queue(),
            final(self).spec_trade_type() == old(self).spec_trade_type(),
            ({
                let v = old(self).spec_results();
                let w = final(self).spec_results();
                &&& forall|id: Seq<char>| #[trigger] kept_id(v, id) ==> has_id(w, id)
                &&& forall|j: int| 0 <= j < w.len() ==> is_winner(v, (#[trigger] w[j]).0, w[j])
                &&& forall|a: int, b: int| 0 <= a < b < w.len() ==> w[a].0 != w[b].0
            }),
    {
        let ghost v = self.spec_results();
        let mut cleaned_results: Vec<TradeRecord> = Vec::new();
        let mut i: usize = 0;
        while i < self.trade_results.len()
            invariant
                v == recs_view(self.trade_results@),
                self.trade_queue@ == old(self).trade_queue@,
                self.trade_type == old(self).spec_trade_type(),
                0 <= i <= v.len(),
                ({
                    let w = recs_view(cleaned_results@);
                    &&& forall|m: int|
                        0 <= m < i && #[trigger] first_occ(v, m) && kept_id(v, v[m].0) ==> has_id(
                            w,
                            v[m].0,
                        )
                    &&& forall|j: int|
                        0 <= j < w.len() ==> is_winner(v, (#[trigger] w[j]).0, w[j])
                    &&& forall|j: int|
                        0 <= j < w.len() ==> exists|m: int|
                            0 <= m < i && #[trigger] first_occ(v, m) && v[m].0 == (
                            #[trigger] w[j]).0
                    &&& forall|a: int, b: int| 0 <= a < b < w.len() ==> w[a].0 != w[b].0
                }),
            decreases v.len() - i,
        {
            let ghost w_pre = recs_view(cleaned_results@);
            if is_first_occurrence(&self.trade_results, i) {
                match find_winner(&self.trade_results, i) {
                    Some(b) => {
                        let won = &self.trade_results[b];
                        proof {
                            assert(won@ == v[b as int]);
                        }
                        let kept_row = TradeRecord {
                            trade_id: won.trade_id.clone(),
                            trade_event_time: won.trade_event_time,
                            outcome_event_time: won.outcome_event_time,
                        };
                        proof {
                            assert(kept_row@ == v[b as int]);
                        }
                        cleaned_results.push(kept_row);
                        proof {
                            let w = recs_view(cleaned_results@);
                            assert(w =~= w_pre.push(v[b as int]));
                            assert(v[b as int].0 == v[i as int].0);
                            assert forall|m: int|
                                0 <= m < i + 1 && #[trigger] first_occ(v, m) && kept_id(
                                    v,
                                    v[m].0,
                                ) implies has_id(w, v[m].0) by {
                                if m < i {
                                    assert(has_id(w_pre, v[m].0));
                                    let j = choose|j: int|
                                        0 <= j < w_pre.len() && (#[trigger] w_pre[j]).0 == v[m].0;
                                    assert(0 <= j < w.len() && w[j].0 == v[m].0);
                                } else {
                                    assert(w[w.len() - 1].0 == v[i as int].0);
                                }
                            }
                            assert forall|j: int|
                                0 <= j < w.len() implies is_winner(v, (#[trigger] w[j]).0, w[j]) by {
                                if j < w.len() - 1 {
                                    assert(w[j] == w_pre[j]);
                                } else {
                                    assert(w[j] == v[b as int]);
                                }
                            }
                            assert forall|j: int| 0 <= j < w.len() implies exists|m: int|
                                0 <= m < i + 1 && #[trigger] first_occ(v, m) && v[m].0 == (
                                #[trigger] w[j]).0 by {
                                if j < w.len() - 1 {
                                    assert(w[j] == w_pre[j]);
                                    let m = choose|m: int|
                                        0 <= m < i && #[trigger] first_occ(v, m) && v[m].0
                                            == w_pre[j].0;
                                    assert(0 <= m < i + 1 && first_occ(v, m) && v[m].0 == w[j].0);
                                } else {
                                    assert(first_occ(v, i as int) && v[i as int].0 == w[j].0);
                                }
                            }
                            assert forall|a: int, c: int| 0 <= a < c < w.len() implies w[a].0
                                != w[c].0 by {
                                if c == w.len() - 1 {
                                    let m = choose|m: int|
                                        0 <= m < i && #[trigger] first_occ(v, m) && v[m].0 == w_pre[a].0;
                                    if w[a].0 == w[c].0 {
                                        assert(v[m].0 == v[i as int].0);
                                        assert(first_occ(v, i as int));
                                        assert(false);
                                    }
                                }
                            }
                        }
                    },
                    Option::None => {
                    },
                }
            }
            i += 1;
        }
        self.trade_results = cleaned_results;
        proof {
            let w = recs_view(self.trade_results@);
            assert forall|id: Seq<char>| #[trigger] kept_id(v, id) implies has_id(w, id) by {
                let k = choose|k: int| #[trigger] row_eligible(v, k) && v[k].0 == id;
                lemma_first_occ_exists(v, k);
                let m = choose|m: int|
                    0 <= m <= k && #[trigger] first_occ(v, m) && v[m].0 == v[k].0;
                assert(kept_id(v, v[m].0));
            }
            assert forall|a: int, b: int| 0 <= a < b < w.len() implies w[a] != w[b] by {
                assert(w[a].0 != w[b].0);
            }
        }
    }
}

} // verus!
