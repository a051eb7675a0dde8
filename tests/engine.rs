use rand::rngs::StdRng;
use rand::{Rng, SeedableRng};
use scout_game::deck::create_deck;
use scout_game::{
    default_set_map, get_valid_actions, Action, ActionError, Card, ConfigError, GameState,
    NewGameState, Player,
};
use std::collections::VecDeque;

fn player(hand: &[(i32, i32)], score: i32) -> Player {
    Player {
        hand: hand.iter().map(|&(a, b)| Card(a, b)).collect(),
        score,
        scout_show: true,
    }
}

fn state(players: Vec<Player>, active: &[(i32, i32)], active_owner: usize, turn: usize) -> GameState {
    GameState {
        game_size: players.len(),
        players,
        active: active.iter().map(|&(a, b)| Card(a, b)).collect(),
        active_owner,
        turn,
    }
}

fn over(r: Result<NewGameState, ActionError>) -> Vec<i32> {
    match r {
        Ok(NewGameState::GameOver(scores)) => scores,
        Ok(NewGameState::Continue(_)) => panic!("the round should have ended"),
        Err(e) => panic!("refused: {:?}", e),
    }
}

fn goes_on(r: Result<NewGameState, ActionError>) -> GameState {
    match r {
        Ok(NewGameState::Continue(g)) => g,
        Ok(NewGameState::GameOver(s)) => panic!("the round ended: {:?}", s),
        Err(e) => panic!("refused: {:?}", e),
    }
}

#[test]
fn test_game_init() {
    let game = GameState::new(3, false).unwrap();
    assert_eq!(game.players[0].hand.len(), 12);
    let game = GameState::new(4, false).unwrap();
    assert_eq!(game.players[0].hand.len(), 11);
    let game = GameState::new(5, false).unwrap();
    assert_eq!(game.players[0].hand.len(), 9);
}

#[test]
fn deal_gives_every_player_an_equal_share_of_the_deck() {
    for (n, size) in [(3usize, 36usize), (4, 44), (5, 45)] {
        for shuffle in [false, true] {
            let game = GameState::new(n, shuffle).unwrap();
            assert_eq!(game.players.len(), n);
            assert_eq!(game.game_size, n);
            let total: usize = game.players.iter().map(|p| p.hand.len()).sum();
            assert_eq!(total, size);
            for p in &game.players {
                assert_eq!(p.hand.len(), size / n);
                assert_eq!(p.score, 0);
                assert!(p.scout_show);
            }
            assert_eq!(game.turn, 0);
            assert_eq!(game.active_owner, 0);
            assert!(game.active.is_empty());
        }
    }
}

#[test]
fn unshuffled_deal_is_round_robin_over_the_ordered_deck() {
    let game = GameState::new(3, false).unwrap();
    assert_eq!(game.players[0].hand[0], Card(0, 1));
    assert_eq!(game.players[1].hand[0], Card(0, 2));
    assert_eq!(game.players[2].hand[0], Card(1, 2));
    assert_eq!(game.players[0].hand[1], Card(0, 3));
    assert_eq!(game.players[2].hand[11], Card(7, 8));
}

#[test]
fn deck_contents_for_each_player_count() {
    let three = create_deck(3, false);
    assert_eq!(three.len(), 36);
    assert!(three.iter().all(|c| c.0 < c.1 && c.1 <= 8));
    let five = create_deck(5, false);
    assert_eq!(five.len(), 45);
    assert_eq!(*five.last().unwrap(), Card(8, 9));
    let four = create_deck(4, false);
    assert_eq!(four.len(), 44);
    assert!(!four.contains(&Card(8, 9)));
    assert_eq!(&five[..44], &four[..]);
}

#[test]
fn shuffled_deck_is_a_reordering() {
    let ordered = create_deck(5, false);
    let shuffled = create_deck(5, true);
    let mut a: Vec<(i32, i32)> = ordered.iter().map(|c| (c.0, c.1)).collect();
    let mut b: Vec<(i32, i32)> = shuffled.iter().map(|c| (c.0, c.1)).collect();
    assert_ne!(a, b);
    a.sort();
    b.sort();
    assert_eq!(a, b);
}

#[test]
fn unsupported_player_counts_are_refused() {
    for n in [0usize, 1, 2, 6, 10] {
        assert!(matches!(GameState::new(n, false), Err(ConfigError::UnsupportedPlayerCount)));
    }
}

#[test]
fn card_flip_swaps_faces() {
    assert_eq!(Card(3, 7).flip(), Card(7, 3));
}

#[test]
fn scout_moves_a_card_and_pays_the_owner() {
    let g = state(
        vec![player(&[(1, 2), (5, 6)], 0), player(&[(3, 4)], 0), player(&[(7, 8)], 2)],
        &[(4, 9), (6, 1)],
        2,
        0,
    );
    let next = goes_on(g.take_action(&Action::Scout(false, true, 1)));
    assert_eq!(next.players[0].hand, VecDeque::from(vec![Card(1, 2), Card(1, 6), Card(5, 6)]));
    assert_eq!(next.active, VecDeque::from(vec![Card(4, 9)]));
    assert_eq!(next.players[2].score, 3);
    assert_eq!(next.turn, 1);
    assert_eq!(next.active_owner, 2);
    // the earlier state is untouched
    assert_eq!(g.players[0].hand.len(), 2);
}

#[test]
fn show_replaces_the_active_set() {
    let g = state(
        vec![player(&[(1, 0), (2, 0), (3, 0), (9, 0)], 0), player(&[(3, 4)], 0), player(&[(7, 8)], 0)],
        &[(5, 1)],
        2,
        0,
    );
    let next = goes_on(g.take_action(&Action::Show(0, 2)));
    assert_eq!(next.active, VecDeque::from(vec![Card(1, 0), Card(2, 0), Card(3, 0)]));
    assert_eq!(next.players[0].hand, VecDeque::from(vec![Card(9, 0)]));
    assert_eq!(next.players[0].score, 1);
    assert_eq!(next.active_owner, 0);
    assert_eq!(next.turn, 1);
}

#[test]
fn scout_show_spends_the_combined_move() {
    let g = state(
        vec![player(&[(4, 0), (9, 9)], 0), player(&[(3, 4)], 0), player(&[(7, 8)], 0)],
        &[(5, 1), (2, 2)],
        2,
        0,
    );
    let next = goes_on(g.take_action(&Action::ScoutShow(true, false, 1, 0, 1)));
    assert_eq!(next.active, VecDeque::from(vec![Card(4, 0), Card(5, 1)]));
    assert_eq!(next.players[0].hand, VecDeque::from(vec![Card(9, 9)]));
    assert_eq!(next.players[0].score, 1);
    assert_eq!(next.players[2].score, 1);
    assert!(!next.players[0].scout_show);
}

#[test]
fn illegal_actions_are_refused() {
    let g = state(vec![player(&[(1, 2)], 0), player(&[(3, 4)], 0), player(&[(5, 6)], 0)], &[], 0, 0);
    assert_eq!(g.take_action(&Action::Scout(true, false, 0)).err(), Some(ActionError::EmptyActive));
    let g = state(vec![player(&[(1, 2)], 0), player(&[(3, 4)], 0), player(&[(5, 6)], 0)], &[(7, 7)], 1, 0);
    assert_eq!(g.take_action(&Action::Scout(true, false, 2)).err(), Some(ActionError::InsertOutOfRange));
    assert_eq!(g.take_action(&Action::Show(0, 1)).err(), Some(ActionError::RangeOutOfBounds));
    assert_eq!(g.take_action(&Action::Show(1, 0)).err(), Some(ActionError::RangeOutOfBounds));
    assert_eq!(
        g.take_action(&Action::ScoutShow(true, false, 0, 0, 2)).err(),
        Some(ActionError::RangeOutOfBounds)
    );
    assert_eq!(
        g.take_action(&Action::ScoutShow(true, false, 3, 0, 0)).err(),
        Some(ActionError::InsertOutOfRange)
    );
}

#[test]
fn emptying_the_hand_ends_the_round_with_penalties() {
    let g = state(
        vec![player(&[(5, 0)], 4), player(&[(3, 4), (1, 1)], 6), player(&[(7, 8)], 2)],
        &[(2, 2)],
        2,
        0,
    );
    // player 0 shows its last card: +1 for the single active card
    let scores = over(g.take_action(&Action::Show(0, 0)));
    assert_eq!(scores, vec![5, 4, 1]);
}

#[test]
fn owner_about_to_act_keeps_its_cards_unpenalised() {
    // player 1 scouts; the next seat, 2, owns the active set, so the round ends
    let g = state(
        vec![player(&[(1, 1), (2, 2)], 3), player(&[(3, 4)], 1), player(&[(7, 8), (6, 6), (0, 1)], 5)],
        &[(4, 0), (5, 0)],
        2,
        1,
    );
    let scores = over(g.take_action(&Action::Scout(true, false, 0)));
    // player 2 gains one point for the Scout and keeps all 6 of them
    assert_eq!(scores, vec![3 - 2, 1 - 2, 6]);
}

#[test]
fn round_continues_when_the_next_seat_does_not_own_the_set() {
    let g = state(
        vec![player(&[(1, 1), (2, 2)], 0), player(&[(3, 4)], 0), player(&[(7, 8)], 0)],
        &[(4, 0)],
        1,
        1,
    );
    let next = goes_on(g.take_action(&Action::Scout(true, false, 1)));
    assert_eq!(next.turn, 2);
    assert_eq!(next.players[1].score, 1);
}

#[test]
fn view_is_rotated_to_the_player_to_act() {
    let g = state(
        vec![player(&[(1, 9)], 10), player(&[(3, 4), (5, 6)], 20), player(&[(7, 8)], 30), player(&[], 40)],
        &[(2, 3)],
        0,
        2,
    );
    let v = g.as_view();
    assert_eq!(v.hand, vec![7]);
    assert_eq!(v.active, VecDeque::from(vec![Card(2, 3)]));
    assert_eq!(v.active_owner, 2);
    assert_eq!(v.scores, vec![30, 40, 10, 20]);
    assert_eq!(v.hand_sizes, vec![1, 0, 1, 2]);
    assert_eq!(v.scout_show, vec![true; 4]);
    assert!(g.fits_limits());
}

fn award(g: &GameState, a: &Action) -> i64 {
    match *a {
        Action::Scout(..) => 1,
        Action::Show(..) => g.active.len() as i64,
        Action::ScoutShow(..) => 1 + (g.active.len() as i64 - 1),
    }
}

fn hand_change(a: &Action) -> i64 {
    match *a {
        Action::Scout(..) => 1,
        Action::Show(s, t) => -((t - s + 1) as i64),
        Action::ScoutShow(_, _, _, s, t) => 1 - ((t - s + 1) as i64),
    }
}

#[test]
fn random_rounds_end_and_scores_add_up() {
    let set_map = default_set_map();
    for seed in 0..8u64 {
        let mut rng = StdRng::seed_from_u64(seed);
        let n = 3 + (seed as usize % 3);
        let mut game = GameState::new(n, true).unwrap();
        let mut awarded: i64 = 0;
        let mut finished = None;
        for _ in 0..100_000 {
            assert!(game.fits_limits());
            let actions = get_valid_actions(&game.as_view(), &set_map);
            assert!(!actions.is_empty());
            let action = actions[rng.gen_range(0..actions.len())];
            awarded += award(&game, &action);
            let hands: Vec<i64> = game.players.iter().map(|p| p.hand.len() as i64).collect();
            let actor = game.turn;
            match game.take_action(&action).unwrap() {
                NewGameState::Continue(next) => game = next,
                NewGameState::GameOver(scores) => {
                    let mut after = hands.clone();
                    after[actor] += hand_change(&action);
                    let next = (actor + 1) % n;
                    let credit = if after[actor] == 0 { 0 } else { after[next] };
                    let penalty: i64 = after.iter().sum();
                    finished = Some((scores, awarded - penalty + credit));
                    break;
                }
            }
        }
        let (scores, expected) = finished.expect("the round should end");
        assert_eq!(scores.len(), n);
        assert_eq!(scores.iter().map(|&s| s as i64).sum::<i64>(), expected);
    }
}

#[test]
fn wins_are_tallied_for_every_top_score() {
    let mut wins = vec![0u64, 2, 5];
    scout_game::tally_wins(&mut wins, &vec![4, 4, -1]);
    assert_eq!(wins, vec![1, 3, 5]);
    scout_game::tally_wins(&mut wins, &vec![-3, -7, -2]);
    assert_eq!(wins, vec![1, 3, 6]);
}
