use crate::card::{Card, CardSet};
use crate::deck::{create_deck, deck, lemma_deck_size, supported_players};
use std::collections::VecDeque;
use vstd::prelude::*;

verus! {

/// The bound on scores and card counts under which a transition is taken:
/// a game stays far below it, and within it no tally leaves `i32`.
pub const TALLY_LIMIT: i32 = 100000000;

/// A seat at the table: a hand, a score, and whether the combined Scout and
/// Show is still available this round.
#[derive(Debug, Clone)]
pub struct Player {
    pub hand: CardSet,
    pub score: i32,
    pub scout_show: bool,
}

/// A player as plain values.
pub struct PlayerModel {
    pub hand: Seq<Card>,
    pub score: int,
    pub scout_show: bool,
}

impl View for Player {
    type V = PlayerModel;

    open spec fn view(&self) -> PlayerModel {
        PlayerModel { hand: self.hand@, score: self.score as int, scout_show: self.scout_show }
    }
}

impl Player {
    /// A copy of this player.
    pub fn duplicate(&self) -> (r: Player)
        ensures
            r@ == self@,
    {
        let hand = self.hand.clone();
        assert(hand@ =~= self.hand@);
        Player { hand, score: self.score, scout_show: self.scout_show }
    }
}

impl Default for Player {
    /// A player with no cards and no points who may still Scout and Show.
    fn default() -> (r: Player)
        ensures
            r@ == (PlayerModel { hand: Seq::empty(), score: 0, scout_show: true }),
    {
        Player { hand: VecDeque::new(), score: 0, scout_show: true }
    }
}

/// A move of the player whose turn it is.
#[derive(Eq, PartialEq, Clone, Copy, Debug, Hash, Structural)]
pub enum Action {
    /// Take a card from the active set into the hand: from the left end or
    /// the right, turned over or not, inserted at the given index.
    Scout(bool, bool, usize),
    /// Replace the active set with the hand's cards from `start` to `stop`,
    /// both included.
    Show(usize, usize),
    /// A Scout followed by a Show on the hand that the Scout left.
    ScoutShow(bool, bool, usize, usize, usize),
}

/// Why an action cannot be applied.
#[derive(Eq, PartialEq, Clone, Copy, Debug, Structural)]
pub enum ActionError {
    /// A Scout from an empty active set.
    EmptyActive,
    /// A Scout whose insertion index lies past the end of the hand.
    InsertOutOfRange,
    /// A Show whose range is reversed or reaches past the hand.
    RangeOutOfBounds,
}

/// The player count is not one that the game is defined for.
#[derive(Eq, PartialEq, Clone, Copy, Debug, Structural)]
pub enum ConfigError {
    UnsupportedPlayerCount,
}

/// The card taken by a Scout, as it enters the hand.
pub open spec fn scouted_card(active: Seq<Card>, left: bool, flip: bool) -> Card {
    let c = if left {
        active[0]
    } else {
        active.last()
    };
    if flip {
        Card(c.1, c.0)
    } else {
        c
    }
}

/// The active set after a Scout from one end.
pub open spec fn scouted_rest(active: Seq<Card>, left: bool) -> Seq<Card> {
    if left {
        active.subrange(1, active.len() as int)
    } else {
        active.subrange(0, active.len() - 1)
    }
}

/// `s` with the items from `start` to `stop` (both included) taken out.
pub open spec fn without_range<T>(s: Seq<T>, start: int, stop: int) -> Seq<T> {
    s.subrange(0, start) + s.subrange(stop + 1, s.len() as int)
}

/// Why a Scout inserting at `index` is refused, if it is.
pub open spec fn scout_error(active_len: nat, hand_len: nat, index: int) -> Option<ActionError> {
    if active_len == 0 {
        Some(ActionError::EmptyActive)
    } else if index > hand_len {
        Some(ActionError::InsertOutOfRange)
    } else {
        None
    }
}

/// Why a Show of `start..=stop` is refused, if it is.
pub open spec fn show_error(hand_len: nat, start: int, stop: int) -> Option<ActionError> {
    if start <= stop && stop < hand_len {
        None
    } else {
        Some(ActionError::RangeOutOfBounds)
    }
}

/// Why `a` is refused on a hand of `hand_len` cards facing `active_len`
/// cards, if it is. A ScoutShow is judged on the hand that its Scout leaves.
pub open spec fn action_error(active_len: nat, hand_len: nat, a: Action) -> Option<ActionError> {
    match a {
        Action::Scout(_, _, i) => scout_error(active_len, hand_len, i as int),
        Action::Show(start, stop) => show_error(hand_len, start as int, stop as int),
        Action::ScoutShow(_, _, i, start, stop) => match scout_error(active_len, hand_len, i as int) {
            Some(e) => Some(e),
            None => show_error(hand_len + 1, start as int, stop as int),
        },
    }
}

/// Each final score: the points less the cards still held.
pub open spec fn penalised(ps: Seq<PlayerModel>) -> Seq<int> {
    Seq::new(ps.len(), |i: int| ps[i].score - ps[i].hand.len())
}

/// The scores as mathematical integers.
pub open spec fn as_ints(v: Seq<i32>) -> Seq<int> {
    v.map_values(|x: i32| x as int)
}

/// The whole game as plain values.
pub struct StateModel {
    pub players: Seq<PlayerModel>,
    pub active: Seq<Card>,
    pub active_owner: nat,
    pub turn: nat,
}

impl StateModel {
    /// The hand of the player to act.
    pub open spec fn hand(self) -> Seq<Card> {
        self.players[self.turn as int].hand
    }

    /// Why `a` is refused here, if it is.
    pub open spec fn error(self, a: Action) -> Option<ActionError> {
        action_error(self.active.len(), self.hand().len(), a)
    }

    /// A Scout: the card leaves the active set for the hand, and whoever
    /// showed the active set gains a point.
    pub open spec fn scout(self, left: bool, flip: bool, index: int) -> StateModel {
        let t = self.turn as int;
        let o = self.active_owner as int;
        let p = self.players[t];
        let ps = self.players.update(
            t,
            PlayerModel { hand: p.hand.insert(index, scouted_card(self.active, left, flip)), ..p },
        );
        StateModel {
            players: ps.update(o, PlayerModel { score: ps[o].score + 1, ..ps[o] }),
            active: scouted_rest(self.active, left),
            ..self
        }
    }

    /// A Show: the player gains a point per card of the active set, which
    /// the shown cards replace, and becomes its owner.
    pub open spec fn show(self, start: int, stop: int) -> StateModel {
        let t = self.turn as int;
        let p = self.players[t];
        StateModel {
            players: self.players.update(
                t,
                PlayerModel {
                    hand: without_range(p.hand, start, stop),
                    score: p.score + self.active.len(),
                    ..p
                },
            ),
            active: p.hand.subrange(start, stop + 1),
            active_owner: self.turn,
            ..self
        }
    }

    /// The player to act gives up the combined move for this round.
    pub open spec fn spend_combo(self) -> StateModel {
        let t = self.turn as int;
        StateModel {
            players: self.players.update(t, PlayerModel { scout_show: false, ..self.players[t] }),
            ..self
        }
    }

    /// The state right after `a`, before the end of the round is judged.
    pub open spec fn applied(self, a: Action) -> StateModel {
        match a {
            Action::Scout(left, flip, i) => self.scout(left, flip, i as int),
            Action::Show(start, stop) => self.show(start as int, stop as int),
            Action::ScoutShow(left, flip, i, start, stop) => self.scout(
                left,
                flip,
                i as int,
            ).show(start as int, stop as int).spend_combo(),
        }
    }

    /// The seat after the one to act.
    pub open spec fn next_seat(self) -> nat {
        ((self.turn + 1) as int % (self.players.len() as int)) as nat
    }

    /// The round ends after `a`: the actor's hand is empty, or the turn
    /// would pass to the owner of the active set.
    pub open spec fn round_ends(self, a: Action) -> bool {
        let s = self.applied(a);
        s.hand().len() == 0 || s.active_owner == s.next_seat()
    }

    /// The final scores when `a` ends the round. Where the turn would pass
    /// to the owner of the active set, that player first gains a point per
    /// card held, so that the owner alone keeps its cards unpenalised.
    pub open spec fn final_scores(self, a: Action) -> Seq<int> {
        let s = self.applied(a);
        if s.hand().len() == 0 {
            penalised(s.players)
        } else {
            let nx = s.next_seat() as int;
            penalised(
                s.players.update(
                    nx,
                    PlayerModel { score: s.players[nx].score + s.players[nx].hand.len(), ..s.players[nx] },
                ),
            )
        }
    }

    /// The state after `a` when the round goes on: the turn has passed on.
    pub open spec fn continued(self, a: Action) -> StateModel {
        StateModel { turn: self.applied(a).next_seat(), ..self.applied(a) }
    }

    /// Scores lie in `[-TALLY_LIMIT, top]` and card counts in `[0, top]`.
    pub open spec fn bounded(self, top: int) -> bool {
        &&& self.active.len() <= top
        &&& forall|i: int|
            0 <= i < self.players.len() ==> -TALLY_LIMIT <= #[trigger] self.players[i].score <= top
                && self.players[i].hand.len() <= top
    }
}

/// The players as plain values.
pub open spec fn models(ps: Seq<Player>) -> Seq<PlayerModel> {
    ps.map_values(|p: Player| p@)
}

/// The hands `ps` are the cards `d` dealt one at a time around a ring of `n`
/// seats, seat 0 first: seat `i` holds `d[i]`, `d[i + n]`, `d[i + 2n]`, ...
pub open spec fn dealt(ps: Seq<PlayerModel>, d: Seq<Card>, n: nat) -> bool {
    &&& ps.len() == n
    &&& forall|i: int|
        0 <= i < n ==> (#[trigger] ps[i]).hand.len() == d.len() as int / (n as int) && forall|k: int|
            0 <= k < d.len() as int / (n as int) ==> #[trigger] ps[i].hand[k] == d[k * n + i]
}

/// A round as dealt: seat 0 acts first and owns the empty active set, no
/// one has points, everyone may still Scout and Show, and the hands are the
/// deck for `n` players, in order unless shuffled, dealt around the ring.
pub open spec fn fresh_round(s: StateModel, n: nat, shuffle: bool) -> bool {
    &&& s.turn == 0
    &&& s.active_owner == 0
    &&& s.active.len() == 0
    &&& forall|i: int| 0 <= i < n ==> (#[trigger] s.players[i]).score == 0 && s.players[i].scout_show
    &&& exists|d: Seq<Card>|
        {
            &&& d.to_multiset() == deck(n).to_multiset()
            &&& d.len() == deck(n).len()
            &&& !shuffle ==> d == deck(n)
            &&& #[trigger] dealt(s.players, d, n)
        }
}

/// The number of cards held by all of `ps`.
pub open spec fn total_cards(ps: Seq<PlayerModel>) -> nat
    decreases ps.len(),
{
    if ps.len() == 0 {
        0
    } else {
        total_cards(ps.drop_last()) + ps.last().hand.len()
    }
}

proof fn lemma_total_uniform(ps: Seq<PlayerModel>, q: nat)
    requires
        forall|i: int| 0 <= i < ps.len() ==> (#[trigger] ps[i]).hand.len() == q,
    ensures
        total_cards(ps) == ps.len() * q,
    decreases ps.len(),
{
    if ps.len() > 0 {
        let rest = ps.drop_last();
        assert forall|i: int| 0 <= i < rest.len() implies (#[trigger] rest[i]).hand.len() == q by {
            assert(rest[i] == ps[i]);
        }
        lemma_total_uniform(rest, q);
        assert(ps.len() * q == rest.len() * q + q) by (nonlinear_arith)
            requires
                ps.len() == rest.len() + 1,
        ;
    }
}

/// After the deal every player holds the same number of cards, the deck's
/// size divided by the number of players, and together they hold the whole
/// deck.
pub proof fn lemma_deal_sizes(s: StateModel, n: nat, shuffle: bool)
    requires
        supported_players(n as int),
        fresh_round(s, n, shuffle),
    ensures
        s.players.len() == n,
        forall|i: int| 0 <= i < n ==> (#[trigger] s.players[i]).hand.len() == deck(n).len() / n,
        total_cards(s.players) == deck(n).len(),
{
    lemma_deck_size(n);
    let d = choose|d: Seq<Card>|
        {
            &&& d.to_multiset() == deck(n).to_multiset()
            &&& d.len() == deck(n).len()
            &&& !shuffle ==> d == deck(n)
            &&& #[trigger] dealt(s.players, d, n)
        };
    let q = (deck(n).len() as int / (n as int)) as nat;
    lemma_total_uniform(s.players, q);
    assert(n * q == deck(n).len()) by {
        if n == 3 {
        } else if n == 4 {
        } else {
        }
    }
}

/// How a round ends: when the actor's hand empties, each final score is the
/// points less the cards held; when instead the turn would pass to the owner
/// of the active set, that player keeps its points in full while every other
/// player loses a point per card held.
pub proof fn lemma_round_end_scores(s: StateModel, a: Action)
    requires
        s.players.len() >= 1,
        s.turn < s.players.len(),
        s.active_owner < s.players.len(),
        s.error(a) is None,
        s.round_ends(a),
    ensures
        ({
            let after = s.applied(a);
            let nx = after.next_seat() as int;
            let f = s.final_scores(a);
            &&& f.len() == after.players.len()
            &&& after.hand().len() == 0 ==> forall|i: int|
                0 <= i < f.len() ==> #[trigger] f[i] == after.players[i].score
                    - after.players[i].hand.len()
            &&& after.hand().len() == 0 ==> f[after.turn as int] == after.players[after.turn as int].score
            &&& after.hand().len() > 0 ==> after.active_owner == nx && f[nx] == after.players[nx].score
            &&& after.hand().len() > 0 ==> forall|i: int|
                0 <= i < f.len() && i != nx ==> #[trigger] f[i] == after.players[i].score
                    - after.players[i].hand.len()
        }),
{
    let after = s.applied(a);
    assert(after.players.len() == s.players.len());
    assert(after.turn == s.turn);
}

/// The points of all of `ps` together.
pub open spec fn total_score(ps: Seq<PlayerModel>) -> int
    decreases ps.len(),
{
    if ps.len() == 0 {
        0
    } else {
        total_score(ps.drop_last()) + ps.last().score
    }
}

/// The sum of `v`.
pub open spec fn seq_sum(v: Seq<int>) -> int
    decreases v.len(),
{
    if v.len() == 0 {
        0
    } else {
        seq_sum(v.drop_last()) + v.last()
    }
}

proof fn lemma_total_score_update(ps: Seq<PlayerModel>, i: int, p: PlayerModel)
    requires
        0 <= i < ps.len(),
    ensures
        total_score(ps.update(i, p)) == total_score(ps) - ps[i].score + p.score,
        total_cards(ps.update(i, p)) == total_cards(ps) - ps[i].hand.len() + p.hand.len(),
    decreases ps.len(),
{
    if i == ps.len() - 1 {
        assert(ps.update(i, p).drop_last() =~= ps.drop_last());
    } else {
        assert(ps.update(i, p).drop_last() =~= ps.drop_last().update(i, p));
        lemma_total_score_update(ps.drop_last(), i, p);
    }
}

proof fn lemma_penalised_sum(ps: Seq<PlayerModel>)
    ensures
        seq_sum(penalised(ps)) == total_score(ps) - total_cards(ps),
    decreases ps.len(),
{
    if ps.len() > 0 {
        assert(penalised(ps).drop_last() =~= penalised(ps.drop_last()));
        lemma_penalised_sum(ps.drop_last());
    }
}

/// The points an action hands out: one to the owner of the active set for
/// a Scout, one per card of the active set to the actor for a Show, and for
/// a ScoutShow both, which come to the size of the active set before it.
pub open spec fn award(s: StateModel, a: Action) -> int {
    match a {
        Action::Scout(_, _, _) => 1,
        Action::Show(_, _) => s.active.len() as int,
        Action::ScoutShow(_, _, _, _, _) => s.active.len() as int,
    }
}

/// Every point comes from an action: an action adds its award to the total
/// of the scores, and when it ends the round the final scores add up to that
/// total, less every card still held, plus the cards of the next player when
/// that player owns the active set.
pub proof fn lemma_points_accounted(s: StateModel, a: Action)
    requires
        s.players.len() >= 1,
        s.turn < s.players.len(),
        s.active_owner < s.players.len(),
        s.error(a) is None,
    ensures
        total_score(s.applied(a).players) == total_score(s.players) + award(s, a),
        s.round_ends(a) ==> seq_sum(s.final_scores(a)) == total_score(s.players) + award(s, a)
            - total_cards(s.applied(a).players) + if s.applied(a).hand().len() == 0 {
            0
        } else {
            s.applied(a).players[s.applied(a).next_seat() as int].hand.len() as int
        },
{
    let t = s.turn as int;
    let o = s.active_owner as int;
    match a {
        Action::Scout(left, flip, i) => {
            let p = s.players[t];
            let ps = s.players.update(
                t,
                PlayerModel { hand: p.hand.insert(i as int, scouted_card(s.active, left, flip)), ..p },
            );
            lemma_total_score_update(s.players, t, ps[t]);
            lemma_total_score_update(ps, o, PlayerModel { score: ps[o].score + 1, ..ps[o] });
        },
        Action::Show(start, stop) => {
            let p = s.players[t];
            lemma_total_score_update(
                s.players,
                t,
                PlayerModel {
                    hand: without_range(p.hand, start as int, stop as int),
                    score: p.score + s.active.len(),
                    ..p
                },
            );
        },
        Action::ScoutShow(left, flip, i, start, stop) => {
            let p = s.players[t];
            let ps = s.players.update(
                t,
                PlayerModel { hand: p.hand.insert(i as int, scouted_card(s.active, left, flip)), ..p },
            );
            lemma_total_score_update(s.players, t, ps[t]);
            lemma_total_score_update(ps, o, PlayerModel { score: ps[o].score + 1, ..ps[o] });
            let s1 = s.scout(left, flip, i as int);
            let q = s1.players[t];
            lemma_total_score_update(
                s1.players,
                t,
                PlayerModel {
                    hand: without_range(q.hand, start as int, stop as int),
                    score: q.score + s1.active.len(),
                    ..q
                },
            );
            let s2 = s1.show(start as int, stop as int);
            lemma_total_score_update(s2.players, t, PlayerModel { scout_show: false, ..s2.players[t] });
        },
    }
    let after = s.applied(a);
    if s.round_ends(a) {
        if after.hand().len() == 0 {
            lemma_penalised_sum(after.players);
        } else {
            let nx = after.next_seat() as int;
            let credited = PlayerModel {
                score: after.players[nx].score + after.players[nx].hand.len(),
                ..after.players[nx]
            };
            lemma_total_score_update(after.players, nx, credited);
            lemma_penalised_sum(after.players.update(nx, credited));
        }
    }
}

/// The whole game: every hand, the active set, who showed it, and whose
/// turn it is.
#[derive(Debug)]
pub struct GameState {
    pub players: Vec<Player>,
    pub game_size: usize,
    pub active: CardSet,
    pub active_owner: usize,
    pub turn: usize,
}

impl View for GameState {
    type V = StateModel;

    open spec fn view(&self) -> StateModel {
        StateModel {
            players: models(self.players@),
            active: self.active@,
            active_owner: self.active_owner as nat,
            turn: self.turn as nat,
        }
    }
}

/// The outcome of an action on the whole game.
pub enum NewGameState {
    Continue(GameState),
    GameOver(Vec<i32>),
}

impl GameState {
    /// The ring of players is non-empty and both the turn and the owner of
    /// the active set name a seat in it.
    pub open spec fn wf(&self) -> bool {
        &&& self.game_size == self.players@.len()
        &&& self.game_size >= 1
        &&& self.turn < self.game_size
        &&& self.active_owner < self.game_size
    }

    /// Scores and card counts are within `TALLY_LIMIT`.
    pub open spec fn within_limits(&self) -> bool {
        self@.bounded(TALLY_LIMIT as int)
    }

    /// A copy of the players.
    fn copy_players(&self) -> (r: Vec<Player>)
        ensures
            models(r@) == models(self.players@),
            r@.len() == self.players@.len(),
            forall|i: int| 0 <= i < r@.len() ==> (#[trigger] r@[i])@ == self.players@[i]@,
    {
        let mut r: Vec<Player> = Vec::new();
        let mut i: usize = 0;
        while i < self.players.len()
            invariant
                i <= self.players@.len(),
                models(r@) == models(self.players@.subrange(0, i as int)),
            decreases self.players@.len() - i,
        {
            r.push(self.players[i].duplicate());
            i += 1;
            assert(models(self.players@.subrange(0, i as int)) =~= models(
                self.players@.subrange(0, i - 1),
            ).push(self.players@[i - 1]@));
        }
        assert(self.players@.subrange(0, i as int) =~= self.players@);
        assert forall|i: int| 0 <= i < r@.len() implies (#[trigger] r@[i])@ == self.players@[i]@ by {
            assert(models(r@)[i] == models(self.players@)[i]);
        }
        r
    }

    /// A new round for `n` players: the deck for that count, shuffled when
    /// asked, dealt around the ring from seat 0. Seat 0 acts first and owns
    /// the (empty) active set.
    pub fn new(n: usize, shuffle: bool) -> (r: Result<GameState, ConfigError>)
        ensures
            !supported_players(n as int) <==> r is Err,
            r matches Ok(g) ==> g.wf() && g.within_limits() && g.game_size == n && fresh_round(
                g@,
                n as nat,
                shuffle,
            ),
    {
        if n < 3 || n > 5 {
            return Err(ConfigError::UnsupportedPlayerCount);
        }
        let cards = create_deck(n, shuffle);
        proof {
            lemma_deck_size(n as nat);
        }
        let per_seat = cards.len() / n;
        assert(per_seat * n == cards@.len()) by {
            if n == 3 {
            } else if n == 4 {
            } else {
            }
        }
        let mut players: Vec<Player> = Vec::new();
        let mut i: usize = 0;
        while i < n
            invariant
                3 <= n <= 5,
                i <= n,
                per_seat == cards@.len() as int / (n as int),
                per_seat * n == cards@.len(),
                cards@.len() <= 45,
                per_seat <= 12,
                players@.len() == i,
                forall|p: int|
                    0 <= p < i ==> (#[trigger] players@[p])@.score == 0 && players@[p]@.scout_show
                        && players@[p]@.hand.len() == per_seat && forall|k: int|
                        0 <= k < per_seat ==> #[trigger] players@[p]@.hand[k] == cards@[k * n + p],
            decreases n - i,
        {
            let mut hand: CardSet = VecDeque::new();
            let mut k: usize = 0;
            let mut j: usize = i;
            while k < per_seat
                invariant
                    3 <= n <= 5,
                    i < n,
                    k <= per_seat <= 12,
                    per_seat * n == cards@.len(),
                    cards@.len() <= 45,
                    j == k * n + i,
                    hand@.len() == k,
                    forall|m: int| 0 <= m < k ==> #[trigger] hand@[m] == cards@[m * n + i],
                decreases per_seat - k,
            {
                assert(j < cards@.len()) by (nonlinear_arith)
                    requires
                        j == k * n + i,
                        i < n,
                        k < per_seat,
                        per_seat * n == cards@.len(),
                ;
                assert(j + n == (k + 1) * n + i) by (nonlinear_arith)
                    requires
                        j == k * n + i,
                ;
                hand.push_back(cards[j]);
                j = j + n;
                k += 1;
            }
            players.push(Player { hand, score: 0, scout_show: true });
            i += 1;
        }
        let g = GameState {
            players,
            game_size: n,
            active: VecDeque::new(),
            active_owner: 0,
            turn: 0,
        };
        assert forall|p: int| 0 <= p < n implies #[trigger] g@.players[p] == players@[p]@ by {}
        assert(dealt(g@.players, cards@, n as nat));
        assert(fresh_round(g@, n as nat, shuffle));
        assert forall|p: int| 0 <= p < n implies -TALLY_LIMIT <= #[trigger] g@.players[p].score
            <= TALLY_LIMIT && g@.players[p].hand.len() <= TALLY_LIMIT by {
            assert(g@.players[p] == players@[p]@);
        }
        Ok(g)
    }

    /// Whether scores and card counts are within `TALLY_LIMIT`.
    pub fn fits_limits(&self) -> (r: bool)
        ensures
            r == self.within_limits(),
    {
        if self.active.len() > TALLY_LIMIT as usize {
            return false;
        }
        let mut i: usize = 0;
        while i < self.players.len()
            invariant
                i <= self.players@.len(),
                self.active@.len() <= TALLY_LIMIT,
                forall|p: int|
                    0 <= p < i ==> -TALLY_LIMIT <= #[trigger] self@.players[p].score <= TALLY_LIMIT
                        && self@.players[p].hand.len() <= TALLY_LIMIT,
            decreases self.players@.len() - i,
        {
            let p = &self.players[i];
            assert(self@.players[i as int] == p@);
            if p.score < -TALLY_LIMIT || p.score > TALLY_LIMIT || p.hand.len() > TALLY_LIMIT as usize {
                assert(!(-TALLY_LIMIT <= self@.players[i as int].score <= TALLY_LIMIT
                    && self@.players[i as int].hand.len() <= TALLY_LIMIT));
                return false;
            }
            i += 1;
        }
        true
    }

    fn scout(&self, left: bool, flip: bool, index: usize) -> (r: GameState)
        requires
            self.wf(),
            self.active@.len() > 0,
            index <= self@.hand().len(),
            self@.bounded(3 * TALLY_LIMIT),
        ensures
            r.wf(),
            r@ == self@.scout(left, flip, index as int),
            r@.bounded(3 * TALLY_LIMIT + 1),
    {
        let mut players = self.copy_players();
        let mut active = self.active.clone();
        assert(active@ =~= self.active@);
        let t = self.turn;
        let o = self.active_owner;
        let mut card: Card;
        if left {
            card = active.pop_front().unwrap();
        } else {
            card = active.pop_back().unwrap();
        }
        if flip {
            card = card.flip();
        }
        assert(players@[t as int]@ == self@.players[t as int]);
        let mut p = players[t].duplicate();
        p.hand.insert(index, card);
        players.set(t, p);
        assert(players@[o as int]@.score == self@.players[o as int].score);
        assert(self@.players[o as int].score <= 3 * TALLY_LIMIT);
        let mut q = players[o].duplicate();
        q.score = q.score + 1;
        players.set(o, q);
        let r = GameState { players, game_size: self.game_size, active, active_owner: o, turn: t };
        assert(r@.players =~= self@.scout(left, flip, index as int).players);
        assert forall|i: int| 0 <= i < r@.players.len() implies -TALLY_LIMIT <= #[trigger] r@.players[i].score
            <= 3 * TALLY_LIMIT + 1 && r@.players[i].hand.len() <= 3 * TALLY_LIMIT + 1 by {
            assert(self@.players[i].score <= 3 * TALLY_LIMIT);
        }
        r
    }

    fn show(&self, start: usize, stop: usize) -> (r: GameState)
        requires
            self.wf(),
            start <= stop < self@.hand().len(),
            self@.bounded(3 * TALLY_LIMIT + 1),
        ensures
            r.wf(),
            r@ == self@.show(start as int, stop as int),
            r@.bounded(6 * TALLY_LIMIT + 2),
    {
        let mut players = self.copy_players();
        let t = self.turn;
        let hand_len = self.players[t].hand.len();
        assert(players@[t as int]@ == self@.players[t as int]);
        assert(self@.players[t as int].score <= 3 * TALLY_LIMIT + 1);
        let mut p = players[t].duplicate();
        p.score = p.score + self.active.len() as i32;
        let mut active: CardSet = VecDeque::new();
        let mut k: usize = start;
        while k <= stop
            invariant
                start <= k <= stop + 1,
                stop < hand_len == self@.hand().len(),
                p.hand@ == without_range(self@.hand(), start as int, k - 1),
                p.score == self@.players[t as int].score + self.active@.len(),
                p.scout_show == self@.players[t as int].scout_show,
                active@ == self@.hand().subrange(start as int, k as int),
            decreases stop + 1 - k,
        {
            let c = p.hand.remove(start).unwrap();
            active.push_back(c);
            k += 1;
            assert(p.hand@ =~= without_range(self@.hand(), start as int, k - 1));
            assert(active@ =~= self@.hand().subrange(start as int, k as int));
        }
        assert(p@ == self@.show(start as int, stop as int).players[t as int]);
        players.set(t, p);
        let r = GameState { players, game_size: self.game_size, active, active_owner: t, turn: t };
        assert(r@.players =~= self@.show(start as int, stop as int).players);
        assert forall|i: int| 0 <= i < r@.players.len() implies -TALLY_LIMIT <= #[trigger] r@.players[i].score
            <= 6 * TALLY_LIMIT + 2 && r@.players[i].hand.len() <= 6 * TALLY_LIMIT + 2 by {
            assert(self@.players[i].score <= 3 * TALLY_LIMIT + 1);
        }
        r
    }

    /// The same game with the player to act no longer allowed the combined
    /// move.
    fn spend_combo(&mut self)
        requires
            old(self).wf(),
        ensures
            final(self).wf(),
            final(self)@ == old(self)@.spend_combo(),
            forall|top: int| old(self)@.bounded(top) ==> #[trigger] final(self)@.bounded(top),
    {
        let t = self.turn;
        let mut p = self.players[t].duplicate();
        p.scout_show = false;
        self.players.set(t, p);
        assert(self@.players =~= old(self)@.spend_combo().players);
        assert forall|top: int| old(self)@.bounded(top) implies #[trigger] self@.bounded(top) by {
            assert forall|i: int| 0 <= i < self@.players.len() implies -TALLY_LIMIT <= #[trigger] self@.players[i].score
                <= top && self@.players[i].hand.len() <= top by {
                assert(old(self)@.players[i].score <= top);
            }
        }
    }

    /// Applies `action` for the player to act and returns the game that
    /// follows, or the final scores where the round ends. The round ends
    /// when the actor's hand is empty, or when the turn would pass to the
    /// owner of the active set (see `StateModel::final_scores`). An action
    /// that cannot be applied is refused and nothing changes.
    pub fn take_action(&self, action: &Action) -> (r: Result<NewGameState, ActionError>)
        requires
            self.wf(),
            self.within_limits(),
        ensures
            match r {
                Err(e) => self@.error(*action) == Some(e),
                Ok(NewGameState::GameOver(v)) => {
                    &&& self@.error(*action) is None
                    &&& self@.round_ends(*action)
                    &&& as_ints(v@) == self@.final_scores(*action)
                },
                Ok(NewGameState::Continue(g)) => {
                    &&& self@.error(*action) is None
                    &&& !self@.round_ends(*action)
                    &&& g.wf()
                    &&& g@ == self@.continued(*action)
                },
            },
    {
        let t = self.turn;
        let hand_len = self.players[t].hand.len();
        let active_len = self.active.len();
        assert(self@.bounded(3 * TALLY_LIMIT + 1));
        let mut state = match *action {
            Action::Scout(left, flip, index) => {
                if active_len == 0 {
                    return Err(ActionError::EmptyActive);
                }
                if index > hand_len {
                    return Err(ActionError::InsertOutOfRange);
                }
                self.scout(left, flip, index)
            },
            Action::Show(start, stop) => {
                if !(start <= stop && stop < hand_len) {
                    return Err(ActionError::RangeOutOfBounds);
                }
                self.show(start, stop)
            },
            Action::ScoutShow(left, flip, index, start, stop) => {
                if active_len == 0 {
                    return Err(ActionError::EmptyActive);
                }
                if index > hand_len {
                    return Err(ActionError::InsertOutOfRange);
                }
                if !(start <= stop && stop <= hand_len) {
                    return Err(ActionError::RangeOutOfBounds);
                }
                let scouted = self.scout(left, flip, index);
                let mut shown = scouted.show(start, stop);
                shown.spend_combo();
                shown
            },
        };
        assert(state@ == self@.applied(*action));
        assert(state@.bounded(6 * TALLY_LIMIT + 2));
        let n = state.game_size;
        assert forall|i: int| 0 <= i < state.players@.len() implies (#[trigger] state.players@[i])@
            == state@.players[i] by {}
        assert forall|i: int| 0 <= i < state.players@.len() implies -TALLY_LIMIT <= (
        #[trigger] state.players@[i])@.score <= 6 * TALLY_LIMIT + 2 && state.players@[i]@.hand.len()
            <= 6 * TALLY_LIMIT + 2 by {
            assert(state@.players[i].score <= 6 * TALLY_LIMIT + 2);
        }
        if state.players[t].hand.len() == 0 {
            assert(state.players@[t as int]@ == state@.players[t as int]);
            let scores = penalised_scores(&state.players, 6 * TALLY_LIMIT + 2);
            return Ok(NewGameState::GameOver(scores));
        }
        let next = (t + 1) % n;
        if state.active_owner == next {
            assert(state.players@[next as int]@ == state@.players[next as int]);
            let ghost old_players = state.players@;
            let mut p = state.players[next].duplicate();
            p.score = p.score + p.hand.len() as i32;
            state.players.set(next, p);
            assert forall|i: int| 0 <= i < state.players@.len() implies -TALLY_LIMIT <= (
            #[trigger] state.players@[i])@.score <= 12 * TALLY_LIMIT + 4 && state.players@[i]@.hand.len()
                <= 6 * TALLY_LIMIT + 2 by {
                if i != next {
                    assert(state.players@[i] == old_players[i]);
                }
            }
            assert(models(state.players@) =~= self@.applied(*action).players.update(
                next as int,
                PlayerModel {
                    score: self@.applied(*action).players[next as int].score + self@.applied(
                        *action,
                    ).players[next as int].hand.len(),
                    ..self@.applied(*action).players[next as int]
                },
            ));
            let scores = penalised_scores(&state.players, 12 * TALLY_LIMIT + 4);
            return Ok(NewGameState::GameOver(scores));
        }
        state.turn = next;
        Ok(NewGameState::Continue(state))
    }
}

/// Each player's points less the cards still held.
fn penalised_scores(players: &Vec<Player>, top: i32) -> (r: Vec<i32>)
    requires
        0 <= top <= 12 * TALLY_LIMIT + 4,
        forall|i: int|
            0 <= i < players@.len() ==> -7 * TALLY_LIMIT - 2 <= (#[trigger] players@[i])@.score <= top
                && players@[i]@.hand.len() <= 6 * TALLY_LIMIT + 2,
    ensures
        as_ints(r@) == penalised(models(players@)),
{
    let mut r: Vec<i32> = Vec::new();
    let mut i: usize = 0;
    while i < players.len()
        invariant
            i <= players@.len(),
            0 <= top <= 12 * TALLY_LIMIT + 4,
            forall|i: int|
                0 <= i < players@.len() ==> -7 * TALLY_LIMIT - 2 <= (#[trigger] players@[i])@.score <= top
                    && players@[i]@.hand.len() <= 6 * TALLY_LIMIT + 2,
            r@.len() == i,
            forall|j: int| 0 <= j < i ==> r@[j] == players@[j]@.score - players@[j]@.hand.len(),
        decreases players@.len() - i,
    {
        let p = &players[i];
        assert(p@ == players@[i as int]@);
        r.push(p.score - p.hand.len() as i32);
        i += 1;
    }
    assert(as_ints(r@) =~= penalised(models(players@)));
    r
}

} // verus!
