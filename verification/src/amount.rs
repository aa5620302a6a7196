//! Scaled-integer amounts: the common representation of prices and
//! quantities throughout the library.
//!
//! An amount is an `i128` holding a decimal at some fixed scale shared by
//! every amount in a run. The feed never produces negative prices or
//! quantities, and exchange decimals are far below [`AMOUNT_MAX`], so the
//! library requires amounts to lie in `0 ..= AMOUNT_MAX`; differences of
//! two such amounts then never overflow `i128`.

use vstd::prelude::*;

verus! {

/// Largest amount the library accepts for a single price or quantity.
pub const AMOUNT_MAX: i128 = 0x7fff_ffff_ffff_ffff;

/// A price or quantity from the feed: non-negative and bounded.
pub open spec fn amount_ok(x: int) -> bool {
    0 <= x <= AMOUNT_MAX
}

/// True when every pair of a diff or snapshot side is within bounds.
pub open spec fn pairs_ok(s: Seq<(i128, i128)>) -> bool {
    forall|i: int| 0 <= i < s.len() ==> amount_ok((#[trigger] s[i]).0 as int) && amount_ok(s[i].1 as int)
}

/// Checks one side of an incoming message for in-range prices and
/// quantities, so that unverified readers can reject a message that the
/// book's contracts would not admit.
pub fn check_pairs(s: &Vec<(i128, i128)>) -> (r: bool)
    ensures
        r == pairs_ok(s@),
{
    let mut i: usize = 0;
    while i < s.len()
        invariant
            0 <= i <= s@.len(),
            forall|j: int| 0 <= j < i ==> amount_ok((#[trigger] s@[j]).0 as int) && amount_ok(s@[j].1 as int),
        decreases s@.len() - i,
    {
        let pq = s[i];
        assert(pq == s@[i as int]);
        if !(0 <= pq.0 && pq.0 <= AMOUNT_MAX && 0 <= pq.1 && pq.1 <= AMOUNT_MAX) {
            return false;
        }
        i += 1;
    }
    true
}

} // verus!
