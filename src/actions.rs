use crate::card::{top_only, tops, Card};
use crate::game::{scouted_card, scouted_rest, Action};
use crate::ranks::{rank, SetMap};
use crate::view::{GameView, ViewModel};
use vstd::prelude::*;

verus! {

/// The hand's cards from `start` to `stop` (both included) form a set that
/// outranks the active set `active`.
pub open spec fn show_ok(hand: Seq<i32>, active: Seq<Card>, start: int, stop: int) -> bool {
    0 <= start <= stop < hand.len() && rank(hand.subrange(start, stop + 1)) > rank(tops(active))
}

/// The hand after a Scout from the active set `active`.
pub open spec fn hand_after_scout(
    hand: Seq<i32>,
    active: Seq<Card>,
    left: bool,
    flip: bool,
    index: int,
) -> Seq<i32> {
    hand.insert(index, scouted_card(active, left, flip).0)
}

/// `a` is legal for the player who sees `v`: a Scout needs a non-empty
/// active set and an insertion index within the hand; a Show needs a range
/// of the hand that outranks the active set; a ScoutShow needs the combined
/// move to be still available and a legal Scout followed by a Show that is
/// legal against what the Scout left.
pub open spec fn is_valid_action(v: ViewModel, a: Action) -> bool {
    match a {
        Action::Scout(_, _, i) => v.active.len() > 0 && i <= v.hand.len(),
        Action::Show(start, stop) => show_ok(v.hand, v.active, start as int, stop as int),
        Action::ScoutShow(left, flip, i, start, stop) => {
            &&& v.scout_show.len() > 0
            &&& v.scout_show[0]
            &&& v.active.len() > 0
            &&& i <= v.hand.len()
            &&& show_ok(
                hand_after_scout(v.hand, v.active, left, flip, i as int),
                scouted_rest(v.active, left),
                start as int,
                stop as int,
            )
        },
    }
}

/// With one card in hand and a non-empty active set, the legal Scouts are
/// the eight choices of end, flip and insertion index 0 or 1, and the only
/// possible Show, of that card, is legal exactly when it outranks the
/// active set.
pub proof fn lemma_one_card_hand(v: ViewModel)
    requires
        v.active.len() > 0,
        v.hand.len() == 1,
    ensures
        Set::new(|a: Action| is_valid_action(v, a) && a is Scout) == set![
            Action::Scout(false, false, 0),
            Action::Scout(false, true, 0),
            Action::Scout(true, false, 0),
            Action::Scout(true, true, 0),
            Action::Scout(false, false, 1),
            Action::Scout(false, true, 1),
            Action::Scout(true, false, 1),
            Action::Scout(true, true, 1),
        ],
        Set::new(|a: Action| is_valid_action(v, a) && a is Show) == if rank(v.hand) > rank(
            tops(v.active),
        ) {
            set![Action::Show(0, 0)]
        } else {
            Set::empty()
        },
{
    assert(v.hand.subrange(0, 1) =~= v.hand);
    let scouts = Set::new(|a: Action| is_valid_action(v, a) && a is Scout);
    let eight = set![
        Action::Scout(false, false, 0),
        Action::Scout(false, true, 0),
        Action::Scout(true, false, 0),
        Action::Scout(true, true, 0),
        Action::Scout(false, false, 1),
        Action::Scout(false, true, 1),
        Action::Scout(true, false, 1),
        Action::Scout(true, true, 1),
    ];
    assert forall|a: Action| scouts.contains(a) <==> eight.contains(a) by {
        match a {
            Action::Scout(l, f, i) => {
                if i <= 1 {
                    if i == 0 {
                        assert(a == Action::Scout(l, f, 0));
                    } else {
                        assert(a == Action::Scout(l, f, 1));
                    }
                }
            },
            _ => {},
        }
    }
    assert(scouts =~= eight);
    let shows = Set::new(|a: Action| is_valid_action(v, a) && a is Show);
    if rank(v.hand) > rank(tops(v.active)) {
        assert(shows =~= set![Action::Show(0, 0)]);
    } else {
        assert(shows =~= Set::<Action>::empty());
    }
}

/// The action that shows `start..=stop`, after the Scout `scout` if any.
pub open spec fn tagged(scout: Option<(bool, bool, usize)>, start: usize, stop: usize) -> Action {
    match scout {
        None => Action::Show(start, stop),
        Some((l, f, i)) => Action::ScoutShow(l, f, i, start, stop),
    }
}

/// `a` shows a range, after the Scout `scout` if any.
pub open spec fn has_tag(scout: Option<(bool, bool, usize)>, a: Action) -> bool {
    match (scout, a) {
        (None, Action::Show(_, _)) => true,
        (Some((l, f, i)), Action::ScoutShow(l2, f2, i2, _, _)) => l == l2 && f == f2 && i == i2,
        _ => false,
    }
}

/// The range that `a` shows.
pub open spec fn shown_range(a: Action) -> (int, int) {
    match a {
        Action::Scout(_, _, _) => (0, 0),
        Action::Show(s, t) => (s as int, t as int),
        Action::ScoutShow(_, _, _, s, t) => (s as int, t as int),
    }
}

/// `a` shows a range of `hand` that outranks `floor`.
pub open spec fn range_beats(hand: Seq<i32>, floor: int, a: Action) -> bool {
    let (s, t) = shown_range(a);
    0 <= s <= t < hand.len() && rank(hand.subrange(s, t + 1)) > floor
}

/// Range `p` comes before range `q`, by start and then by stop.
pub open spec fn range_before(p: (int, int), q: (int, int)) -> bool {
    p.0 < q.0 || (p.0 == q.0 && p.1 < q.1)
}

/// Appends, in order of start and then stop, an action for each range of
/// `hand` that outranks `floor`: a Show, or a ScoutShow after `scout`.
fn push_shows(
    actions: &mut Vec<Action>,
    hand: &Vec<i32>,
    floor: i32,
    scout: Option<(bool, bool, usize)>,
    set_map: &SetMap,
)
    requires
        set_map.wf(),
    ensures
        final(actions)@.len() >= old(actions)@.len(),
        final(actions)@.subrange(0, old(actions)@.len() as int) == old(actions)@,
        forall|k: int|
            old(actions)@.len() <= k < final(actions)@.len() ==> has_tag(scout, #[trigger] final(actions)@[k])
                && range_beats(hand@, floor as int, final(actions)@[k]),
        forall|s: usize, t: usize|
            s <= t < hand@.len() && rank(hand@.subrange(s as int, t + 1)) > floor
                ==> final(actions)@.contains(#[trigger] tagged(scout, s, t)),
        forall|k1: int, k2: int|
            old(actions)@.len() <= k1 < k2 < final(actions)@.len() ==> range_before(
                shown_range(#[trigger] final(actions)@[k1]),
                shown_range(#[trigger] final(actions)@[k2]),
            ),
{
    let ghost base = actions@;
    let n = hand.len();
    let mut start: usize = 0;
    while start < n
        invariant
            set_map.wf(),
            n == hand@.len(),
            start <= n,
            actions@.len() >= base.len(),
            actions@.subrange(0, base.len() as int) == base,
            forall|k: int|
                base.len() <= k < actions@.len() ==> has_tag(scout, #[trigger] actions@[k])
                    && range_beats(hand@, floor as int, actions@[k]) && shown_range(actions@[k]).0
                    < start,
            forall|s: usize, t: usize|
                s < start && s <= t < n && rank(hand@.subrange(s as int, t + 1)) > floor
                    ==> actions@.contains(#[trigger] tagged(scout, s, t)),
            forall|k1: int, k2: int|
                base.len() <= k1 < k2 < actions@.len() ==> range_before(
                    shown_range(#[trigger] actions@[k1]),
                    shown_range(#[trigger] actions@[k2]),
                ),
        decreases n - start,
    {
        let mut stop: usize = start;
        while stop < n
            invariant
                set_map.wf(),
                n == hand@.len(),
                start <= stop <= n,
                start < n,
                actions@.len() >= base.len(),
                actions@.subrange(0, base.len() as int) == base,
                forall|k: int|
                    base.len() <= k < actions@.len() ==> has_tag(scout, #[trigger] actions@[k])
                        && range_beats(hand@, floor as int, actions@[k]) && range_before(
                        shown_range(actions@[k]),
                        (start as int, stop as int),
                    ),
                forall|s: usize, t: usize|
                    (s < start || (s == start && t < stop)) && s <= t < n && rank(
                        hand@.subrange(s as int, t + 1),
                    ) > floor ==> actions@.contains(#[trigger] tagged(scout, s, t)),
                forall|k1: int, k2: int|
                    base.len() <= k1 < k2 < actions@.len() ==> range_before(
                        shown_range(#[trigger] actions@[k1]),
                        shown_range(#[trigger] actions@[k2]),
                    ),
            decreases n - stop,
        {
            let r = set_map.rank_of_range(hand, start, stop + 1);
            if r > floor {
                let a = match scout {
                    None => Action::Show(start, stop),
                    Some((l, f, i)) => Action::ScoutShow(l, f, i, start, stop),
                };
                assert(a == tagged(scout, start, stop));
                let ghost before = actions@;
                actions.push(a);
                assert(actions@.subrange(0, base.len() as int) =~= before.subrange(0, base.len() as int));
                assert(actions@[actions@.len() - 1] == a);
                assert forall|s: usize, t: usize|
                    (s < start || (s == start && t < stop + 1)) && s <= t < n && rank(
                        hand@.subrange(s as int, t + 1),
                    ) > floor implies actions@.contains(#[trigger] tagged(scout, s, t)) by {
                    if s == start && t == stop {
                        assert(actions@[actions@.len() - 1] == tagged(scout, s, t));
                    } else {
                        let k = choose|k: int| 0 <= k < before.len() && before[k] == tagged(scout, s, t);
                        assert(actions@[k] == tagged(scout, s, t));
                    }
                }
            }
            stop += 1;
        }
        start += 1;
    }
}


/// `a` is a Scout into an index below `i`.
pub open spec fn scout_below(a: Action, i: int) -> bool {
    match a {
        Action::Scout(_, _, j) => j < i,
        _ => false,
    }
}

/// The Scout index of a ScoutShow.
pub open spec fn combo_index(a: Action) -> Option<usize> {
    match a {
        Action::ScoutShow(_, _, i, _, _) => Some(i),
        _ => None,
    }
}

/// Appends every ScoutShow that scouts with `left`, `flip` and `i`.
fn push_scout_shows(
    actions: &mut Vec<Action>,
    view: &GameView,
    left: bool,
    flip: bool,
    i: usize,
    set_map: &SetMap,
)
    requires
        set_map.wf(),
        view.active@.len() > 0,
        i <= view.hand@.len(),
        old(actions)@.no_duplicates(),
        forall|k: int|
            0 <= k < old(actions)@.len() ==> !has_tag(Some((left, flip, i)), #[trigger] old(actions)@[k]),
    ensures
        final(actions)@.no_duplicates(),
        final(actions)@.len() >= old(actions)@.len(),
        final(actions)@.subrange(0, old(actions)@.len() as int) == old(actions)@,
        forall|k: int|
            old(actions)@.len() <= k < final(actions)@.len() ==> has_tag(
                Some((left, flip, i)),
                #[trigger] final(actions)@[k],
            ),
        forall|a: Action|
            #[trigger] final(actions)@.contains(a) <==> old(actions)@.contains(a) || (has_tag(
                Some((left, flip, i)),
                a,
            ) && show_ok(
                hand_after_scout(view.hand@, view.active@, left, flip, i as int),
                scouted_rest(view.active@, left),
                shown_range(a).0,
                shown_range(a).1,
            )),
{
    let mut active = view.active.clone();
    assert(active@ =~= view.active@);
    let card = if left {
        active.pop_front().unwrap()
    } else {
        active.pop_back().unwrap()
    };
    let mut hand = view.hand.clone();
    assert(hand@ =~= view.hand@);
    hand.insert(i, if flip { card.1 } else { card.0 });
    assert(hand@ == hand_after_scout(view.hand@, view.active@, left, flip, i as int));
    assert(active@ == scouted_rest(view.active@, left));
    let rest = top_only(&active);
    let floor = set_map.rank_of_range(&rest, 0, rest.len());
    assert(rest@.subrange(0, rest@.len() as int) =~= rest@);
    let ghost old_actions = actions@;
    push_shows(actions, &hand, floor, Some((left, flip, i)), set_map);
    let tag = Some((left, flip, i));
    assert forall|a: Action|
        #[trigger] actions@.contains(a) <==> old_actions.contains(a) || (has_tag(tag, a) && show_ok(
            hand@,
            active@,
            shown_range(a).0,
            shown_range(a).1,
        )) by {
        if actions@.contains(a) {
            let k = choose|k: int| 0 <= k < actions@.len() && actions@[k] == a;
            if k < old_actions.len() {
                assert(old_actions[k] == actions@.subrange(0, old_actions.len() as int)[k]);
            }
        }
        if old_actions.contains(a) {
            let k = choose|k: int| 0 <= k < old_actions.len() && old_actions[k] == a;
            assert(actions@.subrange(0, old_actions.len() as int)[k] == actions@[k]);
        }
        if has_tag(tag, a) && show_ok(hand@, active@, shown_range(a).0, shown_range(a).1) {
            match a {
                Action::ScoutShow(l, f, j, s, t) => {
                    assert(a == tagged(tag, s, t));
                },
                _ => {},
            }
        }
    }
    assert forall|k1: int, k2: int| 0 <= k1 < k2 < actions@.len() implies actions@[k1] != actions@[k2] by {
        if k2 < old_actions.len() {
            assert(actions@[k1] == old_actions[k1]);
            assert(actions@[k2] == old_actions[k2]);
        } else if k1 < old_actions.len() {
            assert(actions@[k1] == old_actions[k1]);
            assert(!has_tag(tag, old_actions[k1]));
            assert(has_tag(tag, actions@[k2]));
        } else {
            assert(range_before(shown_range(actions@[k1]), shown_range(actions@[k2])));
        }
    }
}

/// Appends every legal ScoutShow that scouts into index `i`.
fn push_combos_at(actions: &mut Vec<Action>, view: &GameView, i: usize, set_map: &SetMap)
    requires
        set_map.wf(),
        view.scout_show@.len() > 0,
        view.scout_show@[0],
        view.active@.len() > 0,
        i <= view.hand@.len(),
        old(actions)@.no_duplicates(),
        forall|k: int| 0 <= k < old(actions)@.len() ==> combo_index(#[trigger] old(actions)@[k]) != Some(i),
    ensures
        final(actions)@.no_duplicates(),
        final(actions)@.len() >= old(actions)@.len(),
        final(actions)@.subrange(0, old(actions)@.len() as int) == old(actions)@,
        forall|k: int|
            old(actions)@.len() <= k < final(actions)@.len() ==> combo_index(#[trigger] final(actions)@[k])
                == Some(i),
        forall|a: Action|
            #[trigger] final(actions)@.contains(a) <==> old(actions)@.contains(a) || (combo_index(a)
                == Some(i) && is_valid_action(view@, a)),
{
    let ghost a0 = actions@;
    push_scout_shows(actions, view, true, true, i, set_map);
    let ghost a1 = actions@;
    assert forall|k: int| 0 <= k < a1.len() implies !has_tag(Some((true, false, i)), #[trigger] a1[k]) by {
        if k < a0.len() {
            assert(a1[k] == a1.subrange(0, a0.len() as int)[k]);
        }
    }
    push_scout_shows(actions, view, true, false, i, set_map);
    let ghost a2 = actions@;
    assert forall|k: int| 0 <= k < a2.len() implies !has_tag(Some((false, true, i)), #[trigger] a2[k]) by {
        if k < a1.len() {
            assert(a2[k] == a2.subrange(0, a1.len() as int)[k]);
            if k < a0.len() {
                assert(a1[k] == a1.subrange(0, a0.len() as int)[k]);
            }
        }
    }
    push_scout_shows(actions, view, false, true, i, set_map);
    let ghost a3 = actions@;
    assert forall|k: int| 0 <= k < a3.len() implies !has_tag(Some((false, false, i)), #[trigger] a3[k]) by {
        if k < a2.len() {
            assert(a3[k] == a3.subrange(0, a2.len() as int)[k]);
            if k < a1.len() {
                assert(a2[k] == a2.subrange(0, a1.len() as int)[k]);
                if k < a0.len() {
                    assert(a1[k] == a1.subrange(0, a0.len() as int)[k]);
                }
            }
        }
    }
    push_scout_shows(actions, view, false, false, i, set_map);
    let ghost a4 = actions@;
    assert(a4.subrange(0, a0.len() as int) =~= a0) by {
        assert(a4.subrange(0, a0.len() as int) =~= a3.subrange(0, a0.len() as int));
        assert(a3.subrange(0, a0.len() as int) =~= a2.subrange(0, a0.len() as int));
        assert(a2.subrange(0, a0.len() as int) =~= a1.subrange(0, a0.len() as int));
    }
    assert forall|k: int| a0.len() <= k < a4.len() implies combo_index(#[trigger] a4[k]) == Some(i) by {
        if k < a3.len() {
            assert(a4[k] == a4.subrange(0, a3.len() as int)[k]);
            if k < a2.len() {
                assert(a3[k] == a3.subrange(0, a2.len() as int)[k]);
                if k < a1.len() {
                    assert(a2[k] == a2.subrange(0, a1.len() as int)[k]);
                }
            }
        }
    }
}

/// Every action that is legal for the player who sees `view`, each once:
/// Scouts where the active set is non-empty, Shows of each range of the
/// hand that outranks the active set, and, while the combined move is
/// available, each legal Scout followed by each Show that outranks what the
/// Scout left.
pub fn get_valid_actions(view: &GameView, set_map: &SetMap) -> (r: Vec<Action>)
    requires
        set_map.wf(),
        view.scout_show@.len() > 0,
        view.hand@.len() < usize::MAX,
    ensures
        r@.no_duplicates(),
        forall|a: Action| #[trigger] r@.contains(a) <==> is_valid_action(view@, a),
{
    let mut actions: Vec<Action> = Vec::new();
    let hand_len = view.hand.len();
    if view.active.len() > 0 {
        let mut i: usize = 0;
        while i <= hand_len
            invariant
                hand_len == view.hand@.len() < usize::MAX,
                view.active@.len() > 0,
                i <= hand_len + 1,
                actions@.no_duplicates(),
                forall|k: int|
                    0 <= k < actions@.len() ==> scout_below(#[trigger] actions@[k], i as int),
                forall|a: Action|
                    #[trigger] actions@.contains(a) <==> scout_below(a, i as int),
            decreases hand_len + 1 - i,
        {
            let ghost before = actions@;
            actions.push(Action::Scout(false, false, i));
            actions.push(Action::Scout(false, true, i));
            actions.push(Action::Scout(true, false, i));
            actions.push(Action::Scout(true, true, i));
            proof {
                let m = before.len() as int;
                assert forall|k: int| 0 <= k < actions@.len() implies scout_below(#[trigger] actions@[k], i + 1) by {
                    if k < m {
                        assert(actions@[k] == before[k]);
                    }
                }
                assert forall|a: Action| #[trigger] actions@.contains(a) <==> scout_below(a, i + 1) by {
                    if actions@.contains(a) {
                        let k = choose|k: int| 0 <= k < actions@.len() && actions@[k] == a;
                        if k < m {
                            assert(actions@[k] == before[k]);
                        }
                    }
                    match a {
                        Action::Scout(l, f, j) => {
                            if j < i {
                                assert(before.contains(a));
                                let k = choose|k: int| 0 <= k < before.len() && before[k] == a;
                                assert(actions@[k] == a);
                            } else if j == i {
                                if !l && !f {
                                    assert(actions@[m] == a);
                                } else if !l && f {
                                    assert(actions@[m + 1] == a);
                                } else if l && !f {
                                    assert(actions@[m + 2] == a);
                                } else {
                                    assert(actions@[m + 3] == a);
                                }
                            }
                        },
                        _ => {},
                    }
                }
                assert forall|k1: int, k2: int| 0 <= k1 < k2 < actions@.len() implies actions@[k1]
                    != actions@[k2] by {
                    if k2 < m {
                        assert(actions@[k1] == before[k1]);
                        assert(actions@[k2] == before[k2]);
                    } else if k1 < m {
                        assert(actions@[k1] == before[k1]);
                    }
                }
            }
            i += 1;
        }
    }
    let ghost scouts = actions@;
    let active_tops = top_only(&view.active);
    let floor = set_map.rank_of_range(&active_tops, 0, active_tops.len());
    assert(active_tops@.subrange(0, active_tops@.len() as int) =~= active_tops@);
    push_shows(&mut actions, &view.hand, floor, None, set_map);
    proof {
        assert forall|a: Action| #[trigger] actions@.contains(a) <==> (is_valid_action(view@, a)
            && combo_index(a) is None) by {
            if actions@.contains(a) {
                let k = choose|k: int| 0 <= k < actions@.len() && actions@[k] == a;
                if k < scouts.len() {
                    assert(actions@[k] == actions@.subrange(0, scouts.len() as int)[k]);
                    assert(scouts.contains(a));
                }
            }
            match a {
                Action::Scout(l, f, j) => {
                    if view.active@.len() > 0 && j <= view.hand@.len() {
                        assert(scouts.contains(a));
                        let k = choose|k: int| 0 <= k < scouts.len() && scouts[k] == a;
                        assert(actions@.subrange(0, scouts.len() as int)[k] == actions@[k]);
                    }
                },
                Action::Show(s, t) => {
                    if is_valid_action(view@, a) {
                        assert(a == tagged(None, s, t));
                    }
                },
                _ => {},
            }
        }
        assert forall|k1: int, k2: int| 0 <= k1 < k2 < actions@.len() implies actions@[k1]
            != actions@[k2] by {
            if k2 < scouts.len() {
                assert(actions@[k1] == scouts[k1]);
                assert(actions@[k2] == scouts[k2]);
            } else if k1 < scouts.len() {
                assert(actions@[k1] == scouts[k1]);
            } else {
                assert(range_before(shown_range(actions@[k1]), shown_range(actions@[k2])));
            }
        }
    }
    if !view.scout_show[0] || view.active.len() == 0 {
        return actions;
    }
    assert forall|k: int| 0 <= k < actions@.len() implies combo_index(#[trigger] actions@[k]) is None by {
        assert(actions@.contains(actions@[k]));
    }
    let mut i: usize = 0;
    while i <= hand_len
        invariant
            set_map.wf(),
            hand_len == view.hand@.len() < usize::MAX,
            view.active@.len() > 0,
            view.scout_show@.len() > 0,
            view.scout_show@[0],
            i <= hand_len + 1,
            actions@.no_duplicates(),
            forall|k: int|
                0 <= k < actions@.len() ==> match combo_index(#[trigger] actions@[k]) {
                    Some(j) => j < i,
                    None => true,
                },
            forall|a: Action|
                #[trigger] actions@.contains(a) <==> is_valid_action(view@, a) && match combo_index(a) {
                    Some(j) => j < i,
                    None => true,
                },
        decreases hand_len + 1 - i,
    {
        let ghost before = actions@;
        push_combos_at(&mut actions, view, i, set_map);
        proof {
            assert forall|k: int| 0 <= k < actions@.len() implies match combo_index(#[trigger] actions@[k]) {
                Some(j) => j < i + 1,
                None => true,
            } by {
                if k < before.len() {
                    assert(actions@[k] == actions@.subrange(0, before.len() as int)[k]);
                }
            }
        }
        i += 1;
    }
    actions
}

} // verus!

