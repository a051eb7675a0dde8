use crate::actions::{get_valid_actions, is_valid_action};
use crate::game::Action;
use crate::random::shuffle_in_place;
use crate::ranks::{default_set_map, SetMap};
use crate::search::{min_shows, turns_to_empty, TurnsCache, UNCLEARABLE};
use crate::view::{GameView, NewGameView, ViewModel};
use vstd::prelude::*;

verus! {

/// A player's way of choosing moves: given what it can see, an action, or
/// `None` to halt the game.
pub trait Strategy {
    fn get_action(&mut self, view: &GameView) -> (r: Option<Action>)
        requires
            view.wf(),
            view.within_limits(),
    ;
}

/// The final scores of a round, in seat order.
pub struct GameResult {
    pub scores: Vec<i32>,
}

/// `v` ties the best score of `scores`.
pub open spec fn is_top_score(scores: Seq<i32>, v: i32) -> bool {
    forall|j: int| 0 <= j < scores.len() ==> v >= #[trigger] scores[j]
}

/// Counts a round's winners: each slot whose score ties the round's best
/// gains a win, ties all counting.
pub fn tally_wins(wins: &mut Vec<u64>, scores: &Vec<i32>)
    requires
        old(wins)@.len() == scores@.len(),
        forall|i: int| 0 <= i < old(wins)@.len() ==> #[trigger] old(wins)@[i] < u64::MAX,
    ensures
        final(wins)@.len() == scores@.len(),
        forall|i: int|
            0 <= i < scores@.len() ==> #[trigger] final(wins)@[i] == old(wins)@[i] + if is_top_score(
                scores@,
                scores@[i],
            ) {
                1int
            } else {
                0int
            },
{
    let n = scores.len();
    if n == 0 {
        return;
    }
    let mut best = scores[0];
    let mut j: usize = 1;
    while j < n
        invariant
            n == scores@.len(),
            1 <= j <= n,
            exists|k: int| 0 <= k < j && scores@[k] == best,
            forall|k: int| 0 <= k < j ==> best >= #[trigger] scores@[k],
        decreases n - j,
    {
        if scores[j] > best {
            best = scores[j];
        }
        j += 1;
    }
    let mut i: usize = 0;
    while i < n
        invariant
            n == scores@.len() == wins@.len(),
            i <= n,
            forall|k: int| 0 <= k < n ==> #[trigger] old(wins)@[k] < u64::MAX,
            exists|k: int| 0 <= k < n && scores@[k] == best,
            forall|k: int| 0 <= k < n ==> best >= #[trigger] scores@[k],
            forall|k: int| i <= k < n ==> #[trigger] wins@[k] == old(wins)@[k],
            forall|k: int|
                0 <= k < i ==> #[trigger] wins@[k] == old(wins)@[k] + if is_top_score(
                    scores@,
                    scores@[k],
                ) {
                    1int
                } else {
                    0int
                },
        decreases n - i,
    {
        if scores[i] == best {
            assert(wins@[i as int] == old(wins)@[i as int]);
            let w = wins[i] + 1;
            wins.set(i, w);
        } else {
            proof {
                let k = choose|k: int| 0 <= k < n && scores@[k] == best;
                assert(!is_top_score(scores@, scores@[i as int]));
            }
        }
        i += 1;
    }
}

/// How the rush strategy scores `a`, lower being better: 0 for a move that
/// wins the round, 32 for one that loses it, and otherwise one more than the
/// fewest Shows that empty the hand left (`UNCLEARABLE` where none do, and
/// for a move that cannot be applied).
pub open spec fn rush_key(v: ViewModel, a: Action) -> nat {
    if v.error(a) is Some {
        UNCLEARABLE as nat
    } else if v.round_ends(a) {
        if v.wins(a) {
            0
        } else {
            32
        }
    } else {
        let m = min_shows(v.applied(a).hand);
        if m >= UNCLEARABLE {
            UNCLEARABLE as nat
        } else {
            m + 1
        }
    }
}

/// Plays the legal move that leaves the hand closest to empty, as counted by
/// `turns_to_empty`, preferring a move that wins the round; ties are broken
/// at random. The counts found while choosing one move are shared among the
/// candidates of that move.
pub struct StrategyRush {
    set_map: SetMap,
}

impl StrategyRush {
    #[verifier::type_invariant]
    spec fn ready(self) -> bool {
        self.set_map.wf()
    }

    pub fn new() -> (r: StrategyRush) {
        StrategyRush { set_map: default_set_map() }
    }

    /// The score `rush_key` of `a`.
    fn key_of(&self, view: &GameView, a: &Action, cache: &mut TurnsCache) -> (k: usize)
        requires
            view.wf(),
            view.within_limits(),
            old(cache).wf(),
        ensures
            final(cache).wf(),
            k == rush_key(view@, *a),
    {
        proof {
            use_type_invariant(self);
        }
        match view.take_action(a) {
            Ok(NewGameView::Continue(next)) => {
                assert(next.hand@.len() <= view.hand@.len() + 1);
                let t = turns_to_empty(&next.hand, &self.set_map, cache);
                if t == UNCLEARABLE {
                    UNCLEARABLE
                } else {
                    t + 1
                }
            },
            Ok(NewGameView::Win) => 0,
            Ok(NewGameView::Loss) => 32,
            Err(_) => UNCLEARABLE,
        }
    }

    /// A legal move of least `rush_key`, the first such in a random order
    /// of the legal moves; `None` where there is no legal move.
    pub fn choose_action(&mut self, view: &GameView) -> (r: Option<Action>)
        requires
            view.wf(),
            view.within_limits(),
        ensures
            r is None <==> forall|a: Action| !is_valid_action(view@, a),
            r matches Some(a) ==> is_valid_action(view@, a) && forall|b: Action|
                is_valid_action(view@, b) ==> rush_key(view@, a) <= #[trigger] rush_key(view@, b),
    {
        proof {
            use_type_invariant(&*self);
        }
        let mut cache = TurnsCache::new();
        let mut actions = get_valid_actions(view, &self.set_map);
        let ghost listed = actions@;
        shuffle_in_place(&mut actions);
        proof {
            listed.to_multiset_ensures();
            actions@.to_multiset_ensures();
        }
        assert forall|a: Action| #[trigger] actions@.contains(a) <==> is_valid_action(view@, a) by {
            assert(actions@.to_multiset().count(a) == listed.to_multiset().count(a));
            assert(listed.contains(a) <==> is_valid_action(view@, a));
        }
        if actions.len() == 0 {
            assert forall|a: Action| !is_valid_action(view@, a) by {
                assert(!actions@.contains(a));
            }
            return None;
        }
        let mut best: usize = 0;
        let mut best_key = self.key_of(view, &actions[0], &mut cache);
        let mut i: usize = 1;
        while i < actions.len()
            invariant
                view.wf(),
                view.within_limits(),
                cache.wf(),
                1 <= i <= actions@.len(),
                best < actions@.len(),
                best_key == rush_key(view@, actions@[best as int]),
                forall|j: int| 0 <= j < i ==> best_key <= #[trigger] rush_key(view@, actions@[j]),
            decreases actions@.len() - i,
        {
            let k = self.key_of(view, &actions[i], &mut cache);
            if k < best_key {
                best = i;
                best_key = k;
            }
            i += 1;
        }
        let chosen = actions[best];
        assert(actions@.contains(chosen));
        assert forall|b: Action| is_valid_action(view@, b) implies rush_key(view@, chosen)
            <= #[trigger] rush_key(view@, b) by {
            assert(actions@.contains(b));
            let j = choose|j: int| 0 <= j < actions@.len() && actions@[j] == b;
        }
        Some(chosen)
    }
}

impl Strategy for StrategyRush {
    fn get_action(&mut self, view: &GameView) -> (r: Option<Action>)
        ensures
            r is None <==> forall|a: Action| !is_valid_action(view@, a),
            r matches Some(a) ==> is_valid_action(view@, a) && forall|b: Action|
                is_valid_action(view@, b) ==> rush_key(view@, a) <= #[trigger] rush_key(view@, b),
    {
        self.choose_action(view)
    }
}

} // verus!
