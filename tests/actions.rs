use scout_game::{default_set_map, get_valid_actions, Action, Card, GameView};
use std::collections::{HashSet, VecDeque};

#[test]
fn test_get_valid_actions() {
    let set_map = default_set_map();
    let base_view = GameView {
        hand: Vec::new(),
        active: VecDeque::new(),
        active_owner: 3,
        hand_sizes: vec![1, 1, 1, 1],
        scores: vec![0, 0, 0, 0],
        scout_show: vec![false, false, false, false],
    };

    // Test basic show cases
    let mut view = base_view.clone();
    view.hand.push(0); // hand: [0]
    let actions: HashSet<Action> = get_valid_actions(&view, &set_map).iter().copied().collect();
    assert_eq!(actions, HashSet::from_iter([Action::Show(0, 0)]));
    view.hand.push(0); // hand: [0, 0]
    let actions: HashSet<Action> = get_valid_actions(&view, &set_map).iter().copied().collect();
    assert_eq!(
        actions,
        HashSet::from_iter([Action::Show(0, 0), Action::Show(0, 1), Action::Show(1, 1),])
    );

    // Test basic scout cases
    let mut view = base_view.clone();
    view.hand.push(0); // hand: [0]
    view.active.push_back(Card(1, 1)); // active: [1]
    let actions: HashSet<Action> = get_valid_actions(&view, &set_map).iter().copied().collect();
    assert_eq!(
        actions,
        HashSet::from_iter([
            Action::Scout(false, false, 0),
            Action::Scout(false, true, 0),
            Action::Scout(true, false, 0),
            Action::Scout(true, true, 0),
            Action::Scout(false, false, 1),
            Action::Scout(false, true, 1),
            Action::Scout(true, false, 1),
            Action::Scout(true, true, 1),
        ])
    );

    // Test more complex scout show case
    let mut view = base_view.clone();
    view.hand.push(0); // hand: [0]
    view.active.push_back(Card(3, 0)); // this 0 can be used with scoutshow
    view.active.push_back(Card(3, 3)); // active: [3, 3]
    view.scout_show[0] = true;
    let actions: HashSet<Action> = get_valid_actions(&view, &set_map).iter().copied().collect();
    assert_eq!(
        actions,
        HashSet::from_iter([
            Action::Scout(false, false, 0),
            Action::Scout(false, true, 0),
            Action::Scout(true, false, 0),
            Action::Scout(true, true, 0),
            Action::Scout(false, false, 1),
            Action::Scout(false, true, 1),
            Action::Scout(true, false, 1),
            Action::Scout(true, true, 1),
            Action::ScoutShow(true, true, 0, 0, 1),
            Action::ScoutShow(true, true, 1, 0, 1),
        ])
    );
}

fn one_card_view(card: i32, active: &[(i32, i32)]) -> GameView {
    GameView {
        hand: vec![card],
        active: active.iter().map(|&(a, b)| Card(a, b)).collect(),
        active_owner: 1,
        hand_sizes: vec![1, 2, 2],
        scores: vec![0, 0, 0],
        scout_show: vec![false, true, true],
    }
}

#[test]
fn one_card_hand_has_eight_scouts_and_a_show_only_when_it_outranks() {
    let set_map = default_set_map();
    let beaten = get_valid_actions(&one_card_view(7, &[(4, 1)]), &set_map);
    assert_eq!(beaten.iter().filter(|a| matches!(a, Action::Scout(..))).count(), 8);
    assert_eq!(beaten.iter().filter(|a| matches!(a, Action::Show(..))).count(), 1);
    assert!(beaten.contains(&Action::Show(0, 0)));
    let unbeaten = get_valid_actions(&one_card_view(3, &[(4, 1)]), &set_map);
    assert_eq!(unbeaten.iter().filter(|a| matches!(a, Action::Scout(..))).count(), 8);
    assert_eq!(unbeaten.iter().filter(|a| matches!(a, Action::Show(..))).count(), 0);
    assert_eq!(unbeaten.len(), 8);
}

#[test]
fn actions_are_listed_once_each() {
    let set_map = default_set_map();
    let view = GameView {
        hand: vec![1, 2, 3, 3, 3, 4],
        active: [(2, 5), (3, 1)].iter().map(|&(a, b)| Card(a, b)).collect(),
        active_owner: 2,
        hand_sizes: vec![6, 5, 4],
        scores: vec![0, 0, 0],
        scout_show: vec![true, true, true],
    };
    let actions = get_valid_actions(&view, &set_map);
    let distinct: HashSet<Action> = actions.iter().copied().collect();
    assert_eq!(distinct.len(), actions.len());
    assert_eq!(actions.iter().filter(|a| matches!(a, Action::Scout(..))).count(), 28);
    assert!(distinct.contains(&Action::Show(2, 4)));
    assert!(distinct.contains(&Action::Show(0, 3)) == false);
    assert!(distinct.contains(&Action::Show(0, 2)));
    assert!(!distinct.contains(&Action::Show(1, 1)));
    assert!(distinct.contains(&Action::ScoutShow(false, false, 6, 5, 6)));
}
