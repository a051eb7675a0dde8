use scout_game::default_set_map;

#[test]
fn test_set_map() {
    let set_map = default_set_map();

    // Empty or non matching returns None
    assert_eq!(set_map.get(&Vec::new()), None);

    // Minimum set must score 1 (0 is empty set score)
    assert_eq!(set_map.get(&vec![0 as i32]), Some(&1));

    // Larger sets beat smaller sets
    assert!(set_map.get(&vec![1, 1, 1]).unwrap() > set_map.get(&vec![9, 9]).unwrap());

    // Flushes beat straights
    assert!(set_map.get(&vec![1, 1]).unwrap() > set_map.get(&vec![9, 8]).unwrap());
    assert!(set_map.get(&vec![4, 4, 4]).unwrap() > set_map.get(&vec![1, 2, 3]).unwrap());

    // Ascending == descending
    assert!(set_map.get(&vec![1, 2, 3]).unwrap() == set_map.get(&vec![3, 2, 1]).unwrap());
}

#[test]
fn ranks_follow_the_generation_order() {
    let m = default_set_map();
    assert_eq!(m.get(&vec![9]), Some(&10));
    assert_eq!(m.get(&vec![0, 1]), Some(&11));
    assert_eq!(m.get(&vec![1, 0]), Some(&11));
    assert_eq!(m.get(&vec![9, 10]), Some(&20));
    assert_eq!(m.get(&vec![0, 0]), Some(&21));
    assert_eq!(m.get(&vec![9, 9]), Some(&30));
    assert_eq!(m.get(&vec![0, 1, 2]), Some(&31));
    assert_eq!(m.get(&vec![9; 9]), Some(&170));
    assert_eq!(m.get(&vec![17, 16, 15, 14, 13, 12, 11, 10, 9]), Some(&160));
}

#[test]
fn non_sets_have_no_rank() {
    let m = default_set_map();
    assert_eq!(m.get(&vec![1, 3]), None);
    assert_eq!(m.get(&vec![10]), None);
    assert_eq!(m.get(&vec![-1]), None);
    assert_eq!(m.get(&vec![1, 2, 4]), None);
    assert_eq!(m.get(&vec![5; 10]), None);
    assert_eq!(m.get(&vec![10, 11]), None);
}

#[test]
fn singles_rank_below_every_larger_set() {
    let m = default_set_map();
    let best_single = *m.get(&vec![9]).unwrap();
    assert!(best_single < *m.get(&vec![0, 1]).unwrap());
    for v in 0..10 {
        assert!(*m.get(&vec![v]).unwrap() >= 1);
    }
    assert_eq!(m.get(&vec![0]), Some(&1));
}

#[test]
fn rank_of_a_hand_range() {
    let m = default_set_map();
    let hand = vec![7, 3, 4, 5, 5];
    assert_eq!(m.rank_of_range(&hand, 1, 4), *m.get(&vec![3, 4, 5]).unwrap());
    assert_eq!(m.rank_of_range(&hand, 3, 5), *m.get(&vec![5, 5]).unwrap());
    assert_eq!(m.rank_of_range(&hand, 0, 2), 0);
    assert_eq!(m.rank_of_range(&hand, 2, 2), 0);
}
