use scout_game::search::UNCLEARABLE;
use scout_game::{
    default_set_map, get_valid_actions, turns_to_empty, Action, ActionError, Card, GameView,
    NewGameView, Strategy, StrategyRush, TurnsCache,
};

#[test]
fn test_turns_to_empty() {
    let set_map = default_set_map();
    let mut cache = TurnsCache::new();

    // Trivial cases
    assert_eq!(turns_to_empty(&vec![0], &set_map, &mut cache), 1);
    assert_eq!(turns_to_empty(&vec![0, 1, 2], &set_map, &mut cache), 1);

    // Fiddly examples
    assert_eq!(turns_to_empty(&vec![0, 1, 0], &set_map, &mut cache), 2);
    assert_eq!(turns_to_empty(&vec![1, 3, 5], &set_map, &mut cache), 3);
    assert_eq!(turns_to_empty(&vec![1, 3, 1], &set_map, &mut cache), 2);
    assert_eq!(turns_to_empty(&vec![1, 3, 3, 1], &set_map, &mut cache), 2);
    assert_eq!(
        turns_to_empty(&vec![1, 3, 5, 7, 1], &set_map, &mut cache),
        4
    );

    // Big hands
    assert_eq!(
        turns_to_empty(&vec![7, 3, 2, 1, 4, 7, 1, 2, 1], &set_map, &mut cache),
        5
    );
}

#[test]
fn single_cards_and_whole_sets_take_one_show() {
    let set_map = default_set_map();
    let mut cache = TurnsCache::new();
    for v in 0..10 {
        assert_eq!(turns_to_empty(&vec![v], &set_map, &mut cache), 1);
    }
    assert_eq!(turns_to_empty(&vec![6, 6, 6, 6], &set_map, &mut cache), 1);
    assert_eq!(turns_to_empty(&vec![8, 7, 6, 5, 4], &set_map, &mut cache), 1);
}

#[test]
fn empty_and_unclearable_hands() {
    let set_map = default_set_map();
    let mut cache = TurnsCache::new();
    assert_eq!(turns_to_empty(&vec![], &set_map, &mut cache), 0);
    assert_eq!(turns_to_empty(&vec![10], &set_map, &mut cache), UNCLEARABLE);
    assert_eq!(turns_to_empty(&vec![2, 12], &set_map, &mut cache), UNCLEARABLE);
}

#[test]
fn cached_answers_agree_with_fresh_ones() {
    let set_map = default_set_map();
    let mut shared = TurnsCache::new();
    let hands = [vec![1, 3, 5, 7, 1], vec![3, 5, 7, 1], vec![1, 3, 5], vec![2, 2, 9, 4]];
    for h in hands.iter() {
        let first = turns_to_empty(h, &set_map, &mut shared);
        let again = turns_to_empty(h, &set_map, &mut shared);
        let fresh = turns_to_empty(h, &set_map, &mut TurnsCache::new());
        assert_eq!(first, again);
        assert_eq!(first, fresh);
    }
}

fn view(hand: Vec<i32>, active: &[(i32, i32)], owner: usize, scores: Vec<i32>, sizes: Vec<usize>) -> GameView {
    let n = scores.len();
    GameView {
        hand,
        active: active.iter().map(|&(a, b)| Card(a, b)).collect(),
        active_owner: owner,
        scores,
        hand_sizes: sizes,
        scout_show: vec![true; n],
    }
}

#[test]
fn view_actions_mirror_the_engine() {
    let v = view(vec![1, 2, 6], &[(5, 9), (4, 0)], 2, vec![0, 0, 0], vec![3, 2, 2]);
    match v.take_action(&Action::Scout(true, true, 0)) {
        Ok(NewGameView::Continue(next)) => {
            assert_eq!(next.hand, vec![9, 1, 2, 6]);
            assert_eq!(next.hand_sizes, vec![4, 2, 2]);
            assert_eq!(next.scores, vec![0, 0, 1]);
            assert_eq!(next.active.len(), 1);
        }
        _ => panic!("the round should go on"),
    }
    match v.take_action(&Action::Show(0, 1)) {
        Ok(NewGameView::Continue(next)) => {
            assert_eq!(next.hand, vec![6]);
            assert_eq!(next.hand_sizes, vec![1, 2, 2]);
            assert_eq!(next.scores, vec![2, 0, 0]);
            assert_eq!(next.active_owner, 0);
            assert_eq!(next.active.iter().map(|c| c.0).collect::<Vec<i32>>(), vec![1, 2]);
        }
        _ => panic!("the round should go on"),
    }
    match v.take_action(&Action::ScoutShow(false, false, 3, 2, 3)) {
        Ok(NewGameView::Continue(next)) => {
            assert_eq!(next.hand, vec![1, 2]);
            assert_eq!(next.scout_show, vec![false, true, true]);
            assert_eq!(next.scores, vec![1, 0, 1]);
        }
        _ => panic!("the round should go on"),
    }
    assert_eq!(v.take_action(&Action::Show(2, 3)).err(), Some(ActionError::RangeOutOfBounds));
    let empty = view(vec![1], &[], 0, vec![0, 0, 0], vec![1, 1, 1]);
    assert_eq!(empty.take_action(&Action::Scout(true, true, 0)).err(), Some(ActionError::EmptyActive));
    assert_eq!(v.take_action(&Action::Scout(true, true, 4)).err(), Some(ActionError::InsertOutOfRange));
}

#[test]
fn view_reports_win_and_loss() {
    // emptying the hand: 3 + 1 = 4 against 5 - 1 = 4 and 2 - 3: a tie wins
    let v = view(vec![4], &[(2, 2)], 2, vec![3, 5, 2], vec![1, 1, 3]);
    assert!(matches!(v.take_action(&Action::Show(0, 0)), Ok(NewGameView::Win)));
    let v = view(vec![4], &[(2, 2)], 2, vec![3, 6, 2], vec![1, 1, 3]);
    assert!(matches!(v.take_action(&Action::Show(0, 0)), Ok(NewGameView::Loss)));
    // the next player owns the active set and keeps its 4 cards unpenalised
    let v = view(vec![1, 7], &[(2, 2)], 1, vec![3, 4, 9], vec![2, 4, 9]);
    match v.take_action(&Action::Scout(true, false, 0)) {
        Ok(NewGameView::Loss) => {}
        _ => panic!("0 is behind the owner's 5 + 4 - 4"),
    }
    let v = view(vec![1, 7], &[(2, 2)], 1, vec![9, 4, 9], vec![2, 4, 9]);
    assert!(matches!(v.take_action(&Action::Scout(true, false, 0)), Ok(NewGameView::Win)));
}

#[test]
fn rush_picks_a_legal_move_that_empties_fastest() {
    let set_map = default_set_map();
    let mut rush = StrategyRush::new();
    // showing the whole hand wins the round at once
    let v = view(vec![3, 4, 5], &[(1, 1)], 1, vec![0, 0, 0], vec![3, 5, 5]);
    assert_eq!(rush.get_action(&v), Some(Action::Show(0, 2)));
    let v = view(vec![2, 9, 2, 7], &[(6, 6)], 2, vec![0, 0, 0], vec![4, 5, 5]);
    let chosen = rush.get_action(&v).unwrap();
    assert!(get_valid_actions(&v, &set_map).contains(&chosen));
}

#[test]
fn rush_halts_without_a_legal_move() {
    let mut rush = StrategyRush::new();
    let v = view(vec![10], &[], 0, vec![0, 0, 0], vec![1, 1, 1]);
    assert_eq!(rush.get_action(&v), None);
}
