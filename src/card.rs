use std::collections::VecDeque;
use vstd::prelude::*;

verus! {

/// A two-faced card. The first value faces up and is the one that counts;
/// flipping the card swaps the two faces.
#[derive(Debug, Clone, Copy, PartialEq, Eq, Structural)]
pub struct Card(pub i32, pub i32);

/// An ordered run of cards: a hand or the active set on the table.
pub type CardSet = VecDeque<Card>;

impl Card {
    /// The same card turned over.
    pub fn flip(&self) -> (r: Card)
        ensures
            r == (Card(self.1, self.0)),
    {
        Card(self.1, self.0)
    }
}

/// The face-up values of a run of cards, in order.
pub open spec fn tops(cards: Seq<Card>) -> Seq<i32> {
    cards.map_values(|c: Card| c.0)
}

/// The face-up values of `set`, left to right.
pub fn top_only(set: &CardSet) -> (r: Vec<i32>)
    ensures
        r@ == tops(set@),
{
    let mut r: Vec<i32> = Vec::new();
    let n = set.len();
    let mut i: usize = 0;
    while i < n
        invariant
            n == set@.len(),
            i <= n,
            r@ == tops(set@.subrange(0, i as int)),
        decreases n - i,
    {
        r.push(set[i].0);
        i += 1;
        assert(tops(set@.subrange(0, i as int)) =~= tops(set@.subrange(0, (i - 1) as int)).push(set@[i - 1].0));
    }
    assert(set@.subrange(0, n as int) =~= set@);
    r
}

} // verus!
