use crate::card::Card;
use crate::random::shuffle_in_place;
use vstd::prelude::*;

verus! {

/// Every card `(top, bottom)` with `top < bottom < b`, listed by `bottom`
/// and then by `top`.
pub open spec fn pairs_below(b: nat) -> Seq<Card>
    decreases b,
{
    if b == 0 {
        Seq::empty()
    } else {
        pairs_below((b - 1) as nat) + Seq::new((b - 1) as nat, |t: int| Card(t as i32, (b - 1) as i32))
    }
}

/// The cards in play for `n` players: each pair of distinct values up to 8
/// for three players, up to 9 for five, and for four the same without the
/// card that pairs 8 and 9.
pub open spec fn deck(n: nat) -> Seq<Card> {
    if n == 3 {
        pairs_below(9)
    } else if n == 4 {
        pairs_below(10).drop_last()
    } else if n == 5 {
        pairs_below(10)
    } else {
        Seq::empty()
    }
}

/// A player count that the game is defined for.
pub open spec fn supported_players(n: int) -> bool {
    3 <= n <= 5
}

/// The size of each deck, and that it splits evenly among the players.
pub proof fn lemma_deck_size(n: nat)
    requires
        supported_players(n as int),
    ensures
        n == 3 ==> deck(n).len() == 36,
        n == 4 ==> deck(n).len() == 44,
        n == 5 ==> deck(n).len() == 45,
        deck(n).len() % n == 0,
{
    reveal_with_fuel(pairs_below, 11);
}

/// The deck for `n` players, in order or shuffled.
pub fn create_deck(n: usize, shuffle: bool) -> (r: Vec<Card>)
    requires
        supported_players(n as int),
    ensures
        r@.to_multiset() == deck(n as nat).to_multiset(),
        r@.len() == deck(n as nat).len(),
        !shuffle ==> r@ == deck(n as nat),
{
    let mut cards: Vec<Card> = Vec::new();
    let limit: i32 = if n == 3 { 9 } else { 10 };
    let mut bottom: i32 = 0;
    while bottom < limit
        invariant
            0 <= bottom <= limit <= 10,
            cards@ == pairs_below(bottom as nat),
        decreases limit - bottom,
    {
        let mut top: i32 = 0;
        while top < bottom
            invariant
                0 <= top <= bottom < limit <= 10,
                cards@ == pairs_below(bottom as nat) + Seq::new(
                    top as nat,
                    |t: int| Card(t as i32, bottom as i32),
                ),
            decreases bottom - top,
        {
            cards.push(Card(top, bottom));
            proof {
                assert(Seq::new((top + 1) as nat, |t: int| Card(t as i32, bottom as i32)) =~= Seq::new(
                    top as nat,
                    |t: int| Card(t as i32, bottom as i32),
                ).push(Card(top, bottom)));
            }
            top += 1;
        }
        proof {
            assert(pairs_below((bottom + 1) as nat) =~= pairs_below(bottom as nat) + Seq::new(
                bottom as nat,
                |t: int| Card(t as i32, bottom as i32),
            ));
        }
        bottom += 1;
    }
    if n == 4 {
        cards.pop();
    }
    let ghost ordered = cards@;
    assert(ordered == deck(n as nat));
    if shuffle {
        shuffle_in_place(&mut cards);
        proof {
            ordered.to_multiset_ensures();
            cards@.to_multiset_ensures();
            vstd::seq_lib::to_multiset_len(ordered);
            vstd::seq_lib::to_multiset_len(cards@);
        }
    }
    cards
}

} // verus!
