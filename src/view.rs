use crate::card::{tops, top_only, Card, CardSet};
use crate::game::{
    action_error, scouted_card, scouted_rest, without_range, Action, ActionError, GameState,
    StateModel, TALLY_LIMIT,
};
use std::collections::VecDeque;
use vstd::prelude::*;

verus! {

/// What the player to act can see, with that player at index 0 and the
/// others following around the ring: its own hand as face values, the
/// active set, and for every player the score, the number of cards held and
/// whether the combined move is still available.
#[derive(Clone)]
pub struct GameView {
    pub hand: Vec<i32>,
    pub active: CardSet,
    pub active_owner: usize,
    pub scores: Vec<i32>,
    pub hand_sizes: Vec<usize>,
    pub scout_show: Vec<bool>,
}

/// A view as plain values.
pub struct ViewModel {
    pub hand: Seq<i32>,
    pub active: Seq<Card>,
    pub active_owner: nat,
    pub scores: Seq<int>,
    pub hand_sizes: Seq<nat>,
    pub scout_show: Seq<bool>,
}

impl View for GameView {
    type V = ViewModel;

    open spec fn view(&self) -> ViewModel {
        ViewModel {
            hand: self.hand@,
            active: self.active@,
            active_owner: self.active_owner as nat,
            scores: self.scores@.map_values(|x: i32| x as int),
            hand_sizes: self.hand_sizes@.map_values(|x: usize| x as nat),
            scout_show: self.scout_show@,
        }
    }
}

/// The outcome of an action on a view: the view that follows, or the end of
/// the round as a win or a loss for the player who acted.
pub enum NewGameView {
    Continue(GameView),
    Win,
    Loss,
}

/// The seat `j` places after seat `t` on a ring of `n`.
pub open spec fn seat_after(t: int, j: int, n: int) -> int {
    if t + j < n {
        t + j
    } else {
        t + j - n
    }
}

/// How many places seat `s` lies after seat `t` on a ring of `n`.
pub open spec fn places_after(s: int, t: int, n: int) -> int {
    if s >= t {
        s - t
    } else {
        s + n - t
    }
}

/// The view of the whole game `s` for the player to act.
pub open spec fn view_of(s: StateModel) -> ViewModel {
    let n = s.players.len() as int;
    let t = s.turn as int;
    ViewModel {
        hand: tops(s.players[t].hand),
        active: s.active,
        active_owner: places_after(s.active_owner as int, t, n) as nat,
        scores: Seq::new(n as nat, |j: int| s.players[seat_after(t, j, n)].score),
        hand_sizes: Seq::new(n as nat, |j: int| s.players[seat_after(t, j, n)].hand.len()),
        scout_show: Seq::new(n as nat, |j: int| s.players[seat_after(t, j, n)].scout_show),
    }
}

impl ViewModel {
    /// The seat that acts after this one.
    pub open spec fn next_seat(self) -> int {
        if self.scores.len() == 1 {
            0
        } else {
            1
        }
    }

    /// Why `a` is refused here, if it is.
    pub open spec fn error(self, a: Action) -> Option<ActionError> {
        action_error(self.active.len(), self.hand.len(), a)
    }

    /// A Scout: the face that enters the hand is the one the card shows
    /// after the optional flip; the owner of the active set gains a point.
    pub open spec fn scout(self, left: bool, flip: bool, index: int) -> ViewModel {
        let hand = self.hand.insert(index, scouted_card(self.active, left, flip).0);
        ViewModel {
            hand,
            active: scouted_rest(self.active, left),
            scores: self.scores.update(
                self.active_owner as int,
                self.scores[self.active_owner as int] + 1,
            ),
            hand_sizes: self.hand_sizes.update(0, hand.len()),
            ..self
        }
    }

    /// A Show: a point per card of the active set, which the shown values
    /// replace (their hidden faces unknown, held as 0); the actor owns it.
    pub open spec fn show(self, start: int, stop: int) -> ViewModel {
        let hand = without_range(self.hand, start, stop);
        ViewModel {
            hand,
            active: self.hand.subrange(start, stop + 1).map_values(|v: i32| Card(v, 0)),
            active_owner: 0,
            scores: self.scores.update(0, self.scores[0] + self.active.len()),
            hand_sizes: self.hand_sizes.update(0, hand.len()),
            ..self
        }
    }

    /// The view right after `a`, before the end of the round is judged.
    pub open spec fn applied(self, a: Action) -> ViewModel {
        match a {
            Action::Scout(left, flip, i) => self.scout(left, flip, i as int),
            Action::Show(start, stop) => self.show(start as int, stop as int),
            Action::ScoutShow(left, flip, i, start, stop) => {
                let v = self.scout(left, flip, i as int).show(start as int, stop as int);
                ViewModel { scout_show: v.scout_show.update(0, false), ..v }
            },
        }
    }

    /// The round ends after `a`, by the same rule as for the whole game.
    pub open spec fn round_ends(self, a: Action) -> bool {
        let v = self.applied(a);
        v.hand.len() == 0 || v.active_owner == v.next_seat()
    }

    /// The final scores when `a` ends the round, by the same rule as for
    /// the whole game: the next player, when it owns the active set, keeps
    /// its cards unpenalised.
    pub open spec fn final_scores(self, a: Action) -> Seq<int> {
        let v = self.applied(a);
        let nx = v.next_seat();
        let scores = if v.hand.len() == 0 {
            v.scores
        } else {
            v.scores.update(nx, v.scores[nx] + v.hand_sizes[nx])
        };
        Seq::new(v.scores.len(), |i: int| scores[i] - v.hand_sizes[i])
    }

    /// Scores lie in `[-TALLY_LIMIT, top]` and card counts in `[0, top]`.
    pub open spec fn bounded(self, top: int) -> bool {
        &&& self.hand.len() <= top
        &&& self.active.len() <= top
        &&& forall|i: int| 0 <= i < self.scores.len() ==> -TALLY_LIMIT <= #[trigger] self.scores[i] <= top
        &&& forall|i: int| 0 <= i < self.hand_sizes.len() ==> #[trigger] self.hand_sizes[i] <= top
    }

    /// The actor's final score ties the best.
    pub open spec fn wins(self, a: Action) -> bool {
        let f = self.final_scores(a);
        forall|i: int| 0 <= i < f.len() ==> f[0] >= #[trigger] f[i]
    }
}

impl GameView {
    /// The per-player lists agree in length, the owner of the active set is
    /// one of the players, and the actor's card count is its hand.
    pub open spec fn wf(&self) -> bool {
        &&& self.scores@.len() >= 1
        &&& self.hand_sizes@.len() == self.scores@.len()
        &&& self.scout_show@.len() == self.scores@.len()
        &&& self.active_owner < self.scores@.len()
        &&& self.hand_sizes@[0] == self.hand@.len()
    }

    /// Scores and card counts are within `TALLY_LIMIT`.
    pub open spec fn within_limits(&self) -> bool {
        self@.bounded(TALLY_LIMIT as int)
    }

    /// Whether the view is well formed and within `TALLY_LIMIT`, as
    /// `take_action` requires.
    pub fn fits_limits(&self) -> (r: bool)
        ensures
            r == (self.wf() && self.within_limits()),
    {
        let n = self.scores.len();
        if n == 0 || self.hand_sizes.len() != n || self.scout_show.len() != n || self.active_owner >= n
            || self.hand_sizes[0] != self.hand.len() {
            return false;
        }
        if self.hand.len() > TALLY_LIMIT as usize || self.active.len() > TALLY_LIMIT as usize {
            return false;
        }
        let mut i: usize = 0;
        while i < n
            invariant
                self.wf(),
                n == self.scores@.len(),
                i <= n,
                self.hand@.len() <= TALLY_LIMIT,
                self.active@.len() <= TALLY_LIMIT,
                forall|j: int| 0 <= j < i ==> -TALLY_LIMIT <= #[trigger] self.scores@[j] <= TALLY_LIMIT,
                forall|j: int| 0 <= j < i ==> #[trigger] self.hand_sizes@[j] <= TALLY_LIMIT,
            decreases n - i,
        {
            if self.scores[i] < -TALLY_LIMIT || self.scores[i] > TALLY_LIMIT
                || self.hand_sizes[i] > TALLY_LIMIT as usize {
                assert(!self@.bounded(TALLY_LIMIT as int)) by {
                    assert(self@.scores[i as int] == self.scores@[i as int] as int);
                    assert(self@.hand_sizes[i as int] == self.hand_sizes@[i as int] as nat);
                }
                return false;
            }
            i += 1;
        }
        assert(self@.bounded(TALLY_LIMIT as int)) by {
            assert forall|j: int| 0 <= j < self@.scores.len() implies -TALLY_LIMIT <= #[trigger] self@.scores[j]
                <= TALLY_LIMIT by {
                assert(self@.scores[j] == self.scores@[j] as int);
            }
            assert forall|j: int| 0 <= j < self@.hand_sizes.len() implies #[trigger] self@.hand_sizes[j]
                <= TALLY_LIMIT by {
                assert(self@.hand_sizes[j] == self.hand_sizes@[j] as nat);
            }
        }
        true
    }

    fn scout(&self, left: bool, flip: bool, index: usize) -> (r: GameView)
        requires
            self.wf(),
            self.active@.len() > 0,
            index <= self.hand@.len(),
            self@.bounded(3 * TALLY_LIMIT),
        ensures
            r.wf(),
            r@ == self@.scout(left, flip, index as int),
            r@.bounded(3 * TALLY_LIMIT + 1),
    {
        let mut hand = self.hand.clone();
        assert(hand@ =~= self.hand@);
        let mut active = self.active.clone();
        assert(active@ =~= self.active@);
        let card = if left {
            active.pop_front().unwrap()
        } else {
            active.pop_back().unwrap()
        };
        let face = if flip {
            card.1
        } else {
            card.0
        };
        hand.insert(index, face);
        let o = self.active_owner;
        let mut scores = self.scores.clone();
        assert(scores@ =~= self.scores@);
        assert(self@.scores[o as int] <= 3 * TALLY_LIMIT);
        let bumped = scores[o] + 1;
        scores.set(o, bumped);
        let mut hand_sizes = self.hand_sizes.clone();
        assert(hand_sizes@ =~= self.hand_sizes@);
        hand_sizes.set(0, hand.len());
        let scout_show = self.scout_show.clone();
        assert(scout_show@ =~= self.scout_show@);
        let r = GameView { hand, active, active_owner: o, scores, hand_sizes, scout_show };
        assert(r@.scores =~= self@.scout(left, flip, index as int).scores);
        assert(r@.hand_sizes =~= self@.scout(left, flip, index as int).hand_sizes);
        assert forall|i: int| 0 <= i < r@.scores.len() implies -TALLY_LIMIT <= #[trigger] r@.scores[i]
            <= 3 * TALLY_LIMIT + 1 by {
            assert(self@.scores[i] <= 3 * TALLY_LIMIT);
        }
        assert forall|i: int| 0 <= i < r@.hand_sizes.len() implies #[trigger] r@.hand_sizes[i]
            <= 3 * TALLY_LIMIT + 1 by {
            assert(self@.hand_sizes[i] <= 3 * TALLY_LIMIT);
        }
        r
    }

    fn show(&self, start: usize, stop: usize) -> (r: GameView)
        requires
            self.wf(),
            start <= stop < self.hand@.len(),
            self@.bounded(3 * TALLY_LIMIT + 1),
        ensures
            r.wf(),
            r@ == self@.show(start as int, stop as int),
            r@.bounded(6 * TALLY_LIMIT + 2),
    {
        let mut hand = self.hand.clone();
        assert(hand@ =~= self.hand@);
        let hand_len = self.hand.len();
        let mut active: CardSet = VecDeque::new();
        let mut k: usize = start;
        while k <= stop
            invariant
                start <= k <= stop + 1,
                stop < hand_len == self.hand@.len(),
                hand@ == without_range(self.hand@, start as int, k - 1),
                active@ == self.hand@.subrange(start as int, k as int).map_values(|v: i32| Card(v, 0)),
            decreases stop + 1 - k,
        {
            let v = hand.remove(start);
            active.push_back(Card(v, 0));
            k += 1;
            assert(hand@ =~= without_range(self.hand@, start as int, k - 1));
            assert(active@ =~= self.hand@.subrange(start as int, k as int).map_values(
                |v: i32| Card(v, 0),
            ));
        }
        let mut scores = self.scores.clone();
        assert(scores@ =~= self.scores@);
        assert(self@.scores[0] <= 3 * TALLY_LIMIT + 1);
        let gained = scores[0] + self.active.len() as i32;
        scores.set(0, gained);
        let mut hand_sizes = self.hand_sizes.clone();
        assert(hand_sizes@ =~= self.hand_sizes@);
        hand_sizes.set(0, hand.len());
        let scout_show = self.scout_show.clone();
        assert(scout_show@ =~= self.scout_show@);
        let r = GameView { hand, active, active_owner: 0, scores, hand_sizes, scout_show };
        assert(r@.scores =~= self@.show(start as int, stop as int).scores);
        assert(r@.hand_sizes =~= self@.show(start as int, stop as int).hand_sizes);
        assert forall|i: int| 0 <= i < r@.scores.len() implies -TALLY_LIMIT <= #[trigger] r@.scores[i]
            <= 6 * TALLY_LIMIT + 2 by {
            assert(self@.scores[i] <= 3 * TALLY_LIMIT + 1);
        }
        assert forall|i: int| 0 <= i < r@.hand_sizes.len() implies #[trigger] r@.hand_sizes[i]
            <= 6 * TALLY_LIMIT + 2 by {
            assert(self@.hand_sizes[i] <= 3 * TALLY_LIMIT + 1);
        }
        r
    }

    /// Applies `action` for the player at index 0, on what that player can
    /// see, and returns the view that follows or, where the round ends, a
    /// win (the player's final score ties the best) or a loss. The round
    /// ends and is scored by the same rule as `GameState::take_action`. An
    /// action that cannot be applied is refused.
    pub fn take_action(&self, action: &Action) -> (r: Result<NewGameView, ActionError>)
        requires
            self.wf(),
            self.within_limits(),
        ensures
            match r {
                Err(e) => self@.error(*action) == Some(e),
                Ok(NewGameView::Continue(v)) => {
                    &&& self@.error(*action) is None
                    &&& !self@.round_ends(*action)
                    &&& v.wf()
                    &&& v@ == self@.applied(*action)
                },
                Ok(NewGameView::Win) => {
                    &&& self@.error(*action) is None
                    &&& self@.round_ends(*action)
                    &&& self@.wins(*action)
                },
                Ok(NewGameView::Loss) => {
                    &&& self@.error(*action) is None
                    &&& self@.round_ends(*action)
                    &&& !self@.wins(*action)
                },
            },
    {
        let hand_len = self.hand.len();
        let active_len = self.active.len();
        let view = match *action {
            Action::Scout(left, flip, index) => {
                if active_len == 0 {
                    return Err(ActionError::EmptyActive);
                }
                if index > hand_len {
                    return Err(ActionError::InsertOutOfRange);
                }
                self.scout(left, flip, index)
            },
            Action::Show(start, stop) => {
                if !(start <= stop && stop < hand_len) {
                    return Err(ActionError::RangeOutOfBounds);
                }
                self.show(start, stop)
            },
            Action::ScoutShow(left, flip, index, start, stop) => {
                if active_len == 0 {
                    return Err(ActionError::EmptyActive);
                }
                if index > hand_len {
                    return Err(ActionError::InsertOutOfRange);
                }
                if !(start <= stop && stop <= hand_len) {
                    return Err(ActionError::RangeOutOfBounds);
                }
                let mut v = self.scout(left, flip, index).show(start, stop);
                v.scout_show.set(0, false);
                v
            },
        };
        assert(view@ == self@.applied(*action));
        assert(view@.bounded(6 * TALLY_LIMIT + 2));
        assert forall|i: int| 0 <= i < view.scores@.len() implies -TALLY_LIMIT <= #[trigger] view.scores@[i]
            <= 6 * TALLY_LIMIT + 2 by {
            assert(view@.scores[i] == view.scores@[i] as int);
        }
        assert forall|i: int| 0 <= i < view.hand_sizes@.len() implies #[trigger] view.hand_sizes@[i]
            <= 6 * TALLY_LIMIT + 2 by {
            assert(view@.hand_sizes[i] == view.hand_sizes@[i] as nat);
        }
        let n = view.scores.len();
        let nx: usize = if n == 1 {
            0
        } else {
            1
        };
        if view.hand.len() == 0 {
            assert(self@.final_scores(*action) =~= Seq::new(
                n as nat,
                |i: int| view.scores@[i] - view.hand_sizes@[i],
            ));
            if final_lead(&view.scores, &view.hand_sizes) {
                return Ok(NewGameView::Win);
            } else {
                proof {
                    let i = choose|i: int|
                        0 <= i < view.scores@.len() && !(view.scores@[0] - view.hand_sizes@[0]
                            >= #[trigger] view.scores@[i] - view.hand_sizes@[i]);
                    assert(self@.final_scores(*action)[i] == view.scores@[i] - view.hand_sizes@[i]);
                }
                return Ok(NewGameView::Loss);
            }
        }
        if view.active_owner == nx {
            let mut scores = view.scores.clone();
            assert(scores@ =~= view.scores@);
            assert(view@.scores[nx as int] <= 6 * TALLY_LIMIT + 2);
            assert(view@.hand_sizes[nx as int] <= 6 * TALLY_LIMIT + 2);
            let credited = scores[nx] + view.hand_sizes[nx] as i32;
            scores.set(nx, credited);
            assert(self@.final_scores(*action) =~= Seq::new(
                n as nat,
                |i: int| scores@[i] - view.hand_sizes@[i],
            ));
            assert forall|i: int| 0 <= i < scores@.len() implies -TALLY_LIMIT <= #[trigger] scores@[i]
                <= 12 * TALLY_LIMIT + 4 by {
                if i != nx {
                    assert(scores@[i] == view.scores@[i]);
                }
            }
            if final_lead(&scores, &view.hand_sizes) {
                return Ok(NewGameView::Win);
            } else {
                proof {
                    let i = choose|i: int|
                        0 <= i < scores@.len() && !(scores@[0] - view.hand_sizes@[0]
                            >= #[trigger] scores@[i] - view.hand_sizes@[i]);
                    assert(self@.final_scores(*action)[i] == scores@[i] - view.hand_sizes@[i]);
                }
                return Ok(NewGameView::Loss);
            }
        }
        Ok(NewGameView::Continue(view))
    }
}

impl GameState {
    /// What the player to act can see: the ring turned so that this player
    /// is at index 0, its hand as face values, and the public counts.
    pub fn as_view(&self) -> (r: GameView)
        requires
            self.wf(),
        ensures
            r.wf(),
            r@ == view_of(self@),
            self.within_limits() ==> r.within_limits(),
    {
        let n = self.game_size;
        let t = self.turn;
        let mut scores: Vec<i32> = Vec::new();
        let mut hand_sizes: Vec<usize> = Vec::new();
        let mut scout_show: Vec<bool> = Vec::new();
        let mut j: usize = 0;
        while j < n
            invariant
                self.wf(),
                n == self.game_size,
                t == self.turn,
                j <= n,
                scores@.len() == j,
                hand_sizes@.len() == j,
                scout_show@.len() == j,
                forall|k: int|
                    0 <= k < j ==> #[trigger] scores@[k] == self@.players[seat_after(
                        t as int,
                        k,
                        n as int,
                    )].score,
                forall|k: int|
                    0 <= k < j ==> #[trigger] hand_sizes@[k] == self@.players[seat_after(
                        t as int,
                        k,
                        n as int,
                    )].hand.len(),
                forall|k: int|
                    0 <= k < j ==> #[trigger] scout_show@[k] == self@.players[seat_after(
                        t as int,
                        k,
                        n as int,
                    )].scout_show,
            decreases n - j,
        {
            let seat = if j < n - t {
                t + j
            } else {
                j - (n - t)
            };
            let p = &self.players[seat];
            assert(seat as int == seat_after(t as int, j as int, n as int));
            assert(self@.players[seat as int] == p@);
            scores.push(p.score);
            hand_sizes.push(p.hand.len());
            scout_show.push(p.scout_show);
            j += 1;
        }
        let owner = if self.active_owner >= t {
            self.active_owner - t
        } else {
            n - t + self.active_owner
        };
        assert(self@.players[t as int] == self.players@[t as int]@);
        let r = GameView {
            hand: top_only(&self.players[t].hand),
            active: self.active.clone(),
            active_owner: owner,
            scores,
            hand_sizes,
            scout_show,
        };
        assert(r.active@ =~= self.active@);
        assert(r@.scores =~= view_of(self@).scores);
        assert(r@.hand_sizes =~= view_of(self@).hand_sizes);
        assert(r@.scout_show =~= view_of(self@).scout_show);
        proof {
            if self.within_limits() {
            assert forall|k: int| 0 <= k < r@.scores.len() implies -TALLY_LIMIT <= #[trigger] r@.scores[k]
                <= TALLY_LIMIT by {
                assert(self@.players[seat_after(t as int, k, n as int)].score <= TALLY_LIMIT);
            }
            assert forall|k: int| 0 <= k < r@.hand_sizes.len() implies #[trigger] r@.hand_sizes[k]
                <= TALLY_LIMIT by {
                let x = seat_after(t as int, k, n as int);
                assert(self@.players[x].score <= TALLY_LIMIT && self@.players[x].hand.len() <= TALLY_LIMIT);
            }
            assert(self@.players[t as int].score <= TALLY_LIMIT && self@.players[t as int].hand.len() <= TALLY_LIMIT);
            }
        }
        r
    }
}

/// Whether the first player's final score (points less cards held) ties the
/// best.
fn final_lead(scores: &Vec<i32>, hand_sizes: &Vec<usize>) -> (r: bool)
    requires
        scores@.len() == hand_sizes@.len() >= 1,
        forall|i: int|
            0 <= i < scores@.len() ==> -TALLY_LIMIT <= #[trigger] scores@[i] <= 12 * TALLY_LIMIT + 4,
        forall|i: int| 0 <= i < hand_sizes@.len() ==> #[trigger] hand_sizes@[i] <= 6 * TALLY_LIMIT + 2,
    ensures
        r == forall|i: int|
            0 <= i < scores@.len() ==> scores@[0] - hand_sizes@[0] >= #[trigger] scores@[i]
                - hand_sizes@[i],
{
    let lead = scores[0] - hand_sizes[0] as i32;
    let mut i: usize = 1;
    while i < scores.len()
        invariant
            1 <= i <= scores@.len() == hand_sizes@.len(),
            lead == scores@[0] - hand_sizes@[0],
            forall|i: int|
                0 <= i < scores@.len() ==> -TALLY_LIMIT <= #[trigger] scores@[i] <= 12 * TALLY_LIMIT + 4,
            forall|i: int| 0 <= i < hand_sizes@.len() ==> #[trigger] hand_sizes@[i] <= 6 * TALLY_LIMIT + 2,
            forall|j: int| 0 <= j < i ==> lead >= #[trigger] scores@[j] - hand_sizes@[j],
        decreases scores@.len() - i,
    {
        let other = scores[i] - hand_sizes[i] as i32;
        if other > lead {
            return false;
        }
        i += 1;
    }
    true
}

} // verus!
