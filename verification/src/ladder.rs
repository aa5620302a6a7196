//! One side of the order book: a finite mapping from price to strictly
//! positive quantity, with lookups of the greatest and least price.
//!
//! The mapping is abstracted as a `Map<int, int>` view; the representation
//! keeps one entry per price and only positive quantities.

use vstd::prelude::*;
use vstd::map::*;

use crate::amount::{amount_ok, AMOUNT_MAX};

verus! {

/// One stored level: a price and its resting quantity.
pub type Level = (i128, i128);

pub(crate) open spec fn seq_has(s: Seq<Level>, p: int) -> bool {
    exists|i: int| 0 <= i < s.len() && (#[trigger] s[i]).0 as int == p
}

pub(crate) open spec fn seq_key_at(s: Seq<Level>, p: int) -> int {
    choose|i: int| 0 <= i < s.len() && (#[trigger] s[i]).0 as int == p
}

pub(crate) open spec fn seq_qty(s: Seq<Level>, p: int) -> int {
    s[seq_key_at(s, p)].1 as int
}

pub(crate) open spec fn unique_keys(s: Seq<Level>) -> bool {
    forall|i: int, j: int| 0 <= i < j < s.len() ==> (#[trigger] s[i]).0 != (#[trigger] s[j]).0
}

pub(crate) open spec fn levels_ok(s: Seq<Level>) -> bool {
    forall|i: int| 0 <= i < s.len()
        ==> amount_ok((#[trigger] s[i]).0 as int) && 0 < s[i].1 && amount_ok(s[i].1 as int)
}

pub(crate) open spec fn view_of(s: Seq<Level>) -> Map<int, int> {
    Map::new(|p: int| seq_has(s, p), |p: int| seq_qty(s, p))
}

/// Every key and value of the mapping is a feed amount, and every stored
/// quantity is strictly positive.
pub open spec fn ladder_map_ok(m: Map<int, int>) -> bool {
    forall|p: int| #[trigger] m.contains_key(p) ==> amount_ok(p) && 0 < m[p] <= AMOUNT_MAX
}

/// `p` is the greatest key of `m` (the best bid of a bid ladder).
pub open spec fn is_max_price(m: Map<int, int>, p: int) -> bool {
    m.contains_key(p) && forall|q: int| #[trigger] m.contains_key(q) ==> q <= p
}

/// `p` is the least key of `m` (the best ask of an ask ladder).
pub open spec fn is_min_price(m: Map<int, int>, p: int) -> bool {
    m.contains_key(p) && forall|q: int| #[trigger] m.contains_key(q) ==> p <= q
}

pub struct Ladder {
    levels: Vec<Level>,
}

impl View for Ladder {
    type V = Map<int, int>;

    closed spec fn view(&self) -> Map<int, int> {
        view_of(self.levels@)
    }
}

pub(crate) proof fn lemma_key_at(s: Seq<Level>, i: int)
    requires
        unique_keys(s),
        0 <= i < s.len(),
    ensures
        seq_has(s, s[i].0 as int),
        seq_key_at(s, s[i].0 as int) == i,
        seq_qty(s, s[i].0 as int) == s[i].1 as int,
{
    assert(seq_has(s, s[i].0 as int));
    let j = seq_key_at(s, s[i].0 as int);
    assert(0 <= j < s.len() && s[j].0 as int == s[i].0 as int);
    if i < j {
        assert(s[i].0 != s[j].0);
    } else if j < i {
        assert(s[j].0 != s[i].0);
    }
}

pub(crate) proof fn lemma_view_has(s: Seq<Level>, p: int)
    ensures
        view_of(s).contains_key(p) == seq_has(s, p),
        seq_has(s, p) ==> view_of(s)[p] == seq_qty(s, p),
{
}

/// The view of a unique-keyed, in-range level list satisfies the map
/// well-formedness predicate.
pub(crate) proof fn lemma_view_ok(s: Seq<Level>)
    requires
        unique_keys(s),
        levels_ok(s),
    ensures
        ladder_map_ok(view_of(s)),
{
    assert forall|p: int| #[trigger] view_of(s).contains_key(p) implies amount_ok(p) && 0
        < view_of(s)[p] <= AMOUNT_MAX by {
        lemma_view_has(s, p);
        let i = seq_key_at(s, p);
        assert(0 <= i < s.len() && s[i].0 as int == p);
    }
}

pub(crate) proof fn lemma_view_update(s: Seq<Level>, i: int, q: i128)
    requires
        unique_keys(s),
        0 <= i < s.len(),
    ensures
        unique_keys(s.update(i, (s[i].0, q))),
        view_of(s.update(i, (s[i].0, q))) == view_of(s).insert(s[i].0 as int, q as int),
{
    let s2 = s.update(i, (s[i].0, q));
    assert(forall|k: int| 0 <= k < s.len() ==> (#[trigger] s2[k]).0 == s[k].0);
    let key = s[i].0 as int;
    assert forall|p: int| seq_has(s2, p) == seq_has(s, p) by {
        if seq_has(s, p) {
            let k = seq_key_at(s, p);
            assert(s2[k].0 as int == p);
            assert(seq_has(s2, p));
        }
        if seq_has(s2, p) {
            let k = seq_key_at(s2, p);
            assert(s[k].0 as int == p);
            assert(seq_has(s, p));
        }
    }
    assert_maps_equal!(view_of(s2), view_of(s).insert(key, q as int), p => {
        lemma_view_has(s2, p);
        lemma_view_has(s, p);
        if seq_has(s2, p) {
            if p == key {
                lemma_key_at(s2, i);
            } else {
                let k = seq_key_at(s, p);
                assert(k != i);
                assert(s2[k] == s[k]);
                lemma_key_at(s2, k);
                lemma_key_at(s, k);
            }
        }
    });
}

pub(crate) proof fn lemma_view_push(s: Seq<Level>, x: Level)
    requires
        unique_keys(s),
        !seq_has(s, x.0 as int),
    ensures
        unique_keys(s.push(x)),
        view_of(s.push(x)) == view_of(s).insert(x.0 as int, x.1 as int),
{
    let s2 = s.push(x);
    assert forall|i: int, j: int| 0 <= i < j < s2.len() implies (#[trigger] s2[i]).0 != (
    #[trigger] s2[j]).0 by {
        if j < s.len() {
            assert(s2[i] == s[i] && s2[j] == s[j]);
        } else {
            assert(s2[j] == x);
            assert(s2[i] == s[i]);
            if s[i].0 == x.0 {
                assert(seq_has(s, x.0 as int));
            }
        }
    }
    assert_maps_equal!(view_of(s2), view_of(s).insert(x.0 as int, x.1 as int), p => {
        lemma_view_has(s2, p);
        lemma_view_has(s, p);
        if p == x.0 as int {
            lemma_key_at(s2, s.len() as int);
            assert(seq_has(s2, p));
        } else {
            if seq_has(s, p) {
                let k = seq_key_at(s, p);
                assert(s2[k] == s[k]);
                lemma_key_at(s2, k);
                lemma_key_at(s, k);
            }
            if seq_has(s2, p) {
                let k = seq_key_at(s2, p);
                assert(k < s.len());
                assert(s[k].0 as int == p);
                assert(seq_has(s, p));
            }
        }
    });
}

pub(crate) proof fn lemma_view_remove(s: Seq<Level>, i: int)
    requires
        unique_keys(s),
        0 <= i < s.len(),
    ensures
        unique_keys(s.remove(i)),
        view_of(s.remove(i)) == view_of(s).remove(s[i].0 as int),
{
    let s2 = s.remove(i);
    assert(s2.len() == s.len() - 1);
    assert(forall|k: int| 0 <= k < i ==> #[trigger] s2[k] == s[k]);
    assert(forall|k: int| i <= k < s2.len() ==> #[trigger] s2[k] == s[k + 1]);
    assert forall|a: int, b: int| 0 <= a < b < s2.len() implies (#[trigger] s2[a]).0 != (
    #[trigger] s2[b]).0 by {
        let a0 = if a < i { a } else { a + 1 };
        let b0 = if b < i { b } else { b + 1 };
        assert(s2[a] == s[a0] && s2[b] == s[b0]);
    }
    let key = s[i].0 as int;
    assert_maps_equal!(view_of(s2), view_of(s).remove(key), p => {
        lemma_view_has(s2, p);
        lemma_view_has(s, p);
        if p == key {
            if seq_has(s2, p) {
                let k = seq_key_at(s2, p);
                let k0 = if k < i { k } else { k + 1 };
                assert(s2[k] == s[k0]);
                assert(s[k0].0 as int == p && s[i].0 as int == p && k0 != i);
                assert(false);
            }
        } else {
            if seq_has(s, p) {
                let k = seq_key_at(s, p);
                assert(k != i);
                let k2 = if k < i { k } else { k - 1 };
                assert(s2[k2] == s[k]);
                lemma_key_at(s2, k2);
                lemma_key_at(s, k);
            }
            if seq_has(s2, p) {
                let k = seq_key_at(s2, p);
                let k0 = if k < i { k } else { k + 1 };
                assert(s2[k] == s[k0]);
                assert(seq_has(s, p));
            }
        }
    });
}

/// A unique-keyed level list and its map view have the same size.
pub(crate) proof fn lemma_view_dom_len(s: Seq<Level>)
    requires
        unique_keys(s),
    ensures
        view_of(s).dom().finite(),
        view_of(s).dom().len() == s.len(),
    decreases s.len(),
{
    if s.len() == 0 {
        assert forall|p: int| !(#[trigger] view_of(s).dom().contains(p)) by {
            lemma_view_has(s, p);
            if seq_has(s, p) {
                let i = seq_key_at(s, p);
                assert(0 <= i < s.len());
            }
        }
        assert(view_of(s).dom() =~= Set::<int>::empty());
    } else {
        let s0 = s.drop_last();
        let k = s.last().0 as int;
        assert(forall|i: int| 0 <= i < s0.len() ==> #[trigger] s0[i] == s[i]);
        lemma_view_dom_len(s0);
        assert(!view_of(s0).dom().contains(k)) by {
            lemma_view_has(s0, k);
            if seq_has(s0, k) {
                let i = seq_key_at(s0, k);
                assert(s[i].0 == s[s.len() - 1].0);
            }
        }
        assert forall|p: int| view_of(s).dom().contains(p) == view_of(s0).dom().insert(k).contains(
            p,
        ) by {
            lemma_view_has(s, p);
            lemma_view_has(s0, p);
            if seq_has(s, p) {
                let i = seq_key_at(s, p);
                if i < s0.len() {
                    assert(s0[i].0 as int == p);
                    assert(seq_has(s0, p));
                } else {
                    assert(p == k);
                }
            }
            if seq_has(s0, p) {
                let i = seq_key_at(s0, p);
                assert(s[i].0 as int == p);
                assert(seq_has(s, p));
            }
            if p == k {
                assert(s[s.len() - 1].0 as int == p);
                assert(seq_has(s, p));
            }
        }
        assert(view_of(s).dom() =~= view_of(s0).dom().insert(k));
    }
}

impl Ladder {
    /// Representation invariant: one entry per price, all entries in range
    /// with positive quantity.
    pub closed spec fn inv(&self) -> bool {
        unique_keys(self.levels@) && levels_ok(self.levels@)
    }

    /// Every quantity a well-formed ladder stores is strictly positive and
    /// in range, and every price is in range.
    pub proof fn lemma_inv_map_ok(&self)
        requires
            self.inv(),
        ensures
            ladder_map_ok(self@),
    {
        lemma_view_ok(self.levels@);
    }

    pub fn new() -> (r: Ladder)
        ensures
            r.inv(),
            r@ == Map::<int, int>::empty(),
    {
        let r = Ladder { levels: Vec::new() };
        proof {
            assert_maps_equal!(view_of(r.levels@), Map::<int, int>::empty(), p => {
                lemma_view_has(r.levels@, p);
            });
        }
        r
    }

    pub fn clear(&mut self)
        ensures
            final(self).inv(),
            final(self)@ == Map::<int, int>::empty(),
    {
        self.levels.clear();
        proof {
            assert_maps_equal!(view_of(self.levels@), Map::<int, int>::empty(), p => {
                lemma_view_has(self.levels@, p);
            });
        }
    }

    fn find(&self, price: i128) -> (r: Option<usize>)
        requires
            self.inv(),
        ensures
            match r {
                Some(i) => i < self.levels@.len() && self.levels@[i as int].0 == price,
                None => !seq_has(self.levels@, price as int),
            },
    {
        let mut i: usize = 0;
        while i < self.levels.len()
            invariant
                0 <= i <= self.levels@.len(),
                forall|j: int| 0 <= j < i ==> (#[trigger] self.levels@[j]).0 != price,
            decreases self.levels@.len() - i,
        {
            if self.levels[i].0 == price {
                return Some(i);
            }
            i += 1;
        }
        None
    }

    /// The quantity resting at `price`, if the level exists.
    pub fn get(&self, price: i128) -> (r: Option<i128>)
        requires
            self.inv(),
        ensures
            match r {
                Some(q) => self@.contains_key(price as int) && q as int == self@[price as int],
                None => !self@.contains_key(price as int),
            },
    {
        match self.find(price) {
            Some(i) => {
                let q = self.levels[i].1;
                proof {
                    lemma_key_at(self.levels@, i as int);
                    lemma_view_has(self.levels@, price as int);
                }
                Some(q)
            },
            None => {
                proof {
                    lemma_view_has(self.levels@, price as int);
                }
                None
            },
        }
    }

    /// Sets the level at `price` to `qty`, replacing any previous quantity.
    pub fn set(&mut self, price: i128, qty: i128)
        requires
            old(self).inv(),
            amount_ok(price as int),
            0 < qty && amount_ok(qty as int),
        ensures
            final(self).inv(),
            final(self)@ == old(self)@.insert(price as int, qty as int),
    {
        let ghost s0 = self.levels@;
        match self.find(price) {
            Some(i) => {
                self.levels[i] = (price, qty);
                proof {
                    assert(self.levels@ == s0.update(i as int, (s0[i as int].0, qty)));
                    lemma_view_update(s0, i as int, qty);
                }
            },
            None => {
                self.levels.push((price, qty));
                proof {
                    lemma_view_push(s0, (price, qty));
                }
            },
        }
    }

    /// Removes the level at `price`; removing an absent level is a no-op.
    pub fn remove(&mut self, price: i128)
        requires
            old(self).inv(),
        ensures
            final(self).inv(),
            final(self)@ == old(self)@.remove(price as int),
    {
        let ghost s0 = self.levels@;
        match self.find(price) {
            Some(i) => {
                self.levels.remove(i);
                proof {
                    lemma_view_remove(s0, i as int);
                }
            },
            None => {
                proof {
                    lemma_view_has(s0, price as int);
                    assert_maps_equal!(view_of(s0), view_of(s0).remove(price as int), p => {
                        lemma_view_has(s0, p);
                    });
                }
            },
        }
    }

    /// The greatest stored price, or `None` on an empty ladder.
    pub fn max_price(&self) -> (r: Option<i128>)
        requires
            self.inv(),
        ensures
            match r {
                Some(p) => is_max_price(self@, p as int),
                None => forall|p: int| !(#[trigger] self@.contains_key(p)),
            },
    {
        let ghost s = self.levels@;
        let mut best: Option<i128> = None;
        let mut i: usize = 0;
        while i < self.levels.len()
            invariant
                self.inv(),
                s == self.levels@,
                0 <= i <= s.len(),
                match best {
                    Some(b) => seq_has(s, b as int) && forall|j: int|
                        0 <= j < i ==> (#[trigger] s[j]).0 <= b,
                    None => i == 0,
                },
            decreases s.len() - i,
        {
            let p = self.levels[i].0;
            match best {
                None => { best = Some(p) },
                Some(b) => {
                    if p > b {
                        best = Some(p);
                    }
                },
            }
            i += 1;
        }
        proof {
            match best {
                Some(b) => {
                    lemma_view_has(s, b as int);
                    assert forall|q: int| #[trigger] self@.contains_key(q) implies q <= b as int by {
                        lemma_view_has(s, q);
                        let k = seq_key_at(s, q);
                        assert(0 <= k < s.len() && s[k].0 as int == q);
                    }
                },
                None => {
                    assert forall|p: int| !(#[trigger] self@.contains_key(p)) by {
                        lemma_view_has(s, p);
                        if seq_has(s, p) {
                            let k = seq_key_at(s, p);
                            assert(0 <= k < s.len());
                        }
                    }
                },
            }
        }
        best
    }

    /// The least stored price, or `None` on an empty ladder.
    pub fn min_price(&self) -> (r: Option<i128>)
        requires
            self.inv(),
        ensures
            match r {
                Some(p) => is_min_price(self@, p as int),
                None => forall|p: int| !(#[trigger] self@.contains_key(p)),
            },
    {
        let ghost s = self.levels@;
        let mut best: Option<i128> = None;
        let mut i: usize = 0;
        while i < self.levels.len()
            invariant
                self.inv(),
                s == self.levels@,
                0 <= i <= s.len(),
                match best {
                    Some(b) => seq_has(s, b as int) && forall|j: int|
                        0 <= j < i ==> b <= (#[trigger] s[j]).0,
                    None => i == 0,
                },
            decreases s.len() - i,
        {
            let p = self.levels[i].0;
            match best {
                None => { best = Some(p) },
                Some(b) => {
                    if p < b {
                        best = Some(p);
                    }
                },
            }
            i += 1;
        }
        proof {
            match best {
                Some(b) => {
                    lemma_view_has(s, b as int);
                    assert forall|q: int| #[trigger] self@.contains_key(q) implies b as int <= q by {
                        lemma_view_has(s, q);
                        let k = seq_key_at(s, q);
                        assert(0 <= k < s.len() && s[k].0 as int == q);
                    }
                },
                None => {
                    assert forall|p: int| !(#[trigger] self@.contains_key(p)) by {
                        lemma_view_has(s, p);
                        if seq_has(s, p) {
                            let k = seq_key_at(s, p);
                            assert(0 <= k < s.len());
                        }
                    }
                },
            }
        }
        best
    }

    /// All stored levels, as price and quantity pairs in no stated order.
    pub fn entries(&self) -> (r: Vec<(i128, i128)>)
        requires
            self.inv(),
        ensures
            forall|i: int| 0 <= i < r@.len() ==> self@.contains_key((#[trigger] r@[i]).0 as int)
                && r@[i].1 as int == self@[r@[i].0 as int],
            forall|p: int| #[trigger] self@.contains_key(p) ==> exists|i: int|
                0 <= i < r@.len() && (#[trigger] r@[i]).0 as int == p,
            forall|i: int, j: int| 0 <= i < j < r@.len() ==> (#[trigger] r@[i]).0 != (
            #[trigger] r@[j]).0,
            r@.len() == self@.dom().len(),
    {
        let ghost s = self.levels@;
        let mut r: Vec<(i128, i128)> = Vec::new();
        let mut i: usize = 0;
        while i < self.levels.len()
            invariant
                self.inv(),
                s == self.levels@,
                0 <= i <= s.len(),
                r@ == s.take(i as int),
            decreases s.len() - i,
        {
            r.push(self.levels[i]);
            proof {
                assert(r@ == s.take(i + 1 as int));
            }
            i += 1;
        }
        proof {
            assert(r@ == s);
            assert forall|k: int|
                0 <= k < r@.len() implies self@.contains_key((#[trigger] r@[k]).0 as int)
                && r@[k].1 as int == self@[r@[k].0 as int] by {
                lemma_key_at(s, k);
                lemma_view_has(s, s[k].0 as int);
            }
            assert forall|p: int| #[trigger] self@.contains_key(p) implies exists|i: int|
                0 <= i < r@.len() && (#[trigger] r@[i]).0 as int == p by {
                lemma_view_has(s, p);
                let k = seq_key_at(s, p);
                assert(0 <= k < r@.len() && r@[k].0 as int == p);
            }
            lemma_view_dom_len(s);
        }
        r
    }

}

} // verus!
