use crate::game::without_range;
use crate::ranks::{lemma_ranked_shape, rank, same_values, SetMap};
use vstd::prelude::*;

verus! {

/// The number of Shows that a search reports for a hand that Shows alone
/// cannot empty.
pub const UNCLEARABLE: usize = usize::MAX;

/// Showing the ranges of `plan` in turn, each a set, empties `h`; each
/// range is taken from the hand that the earlier Shows left.
pub open spec fn plan_clears(h: Seq<i32>, plan: Seq<(int, int)>) -> bool
    decreases plan.len(),
{
    if plan.len() == 0 {
        h.len() == 0
    } else {
        let (s, t) = plan[0];
        &&& 0 <= s <= t < h.len()
        &&& rank(h.subrange(s, t + 1)) > 0
        &&& plan_clears(without_range(h, s, t), plan.drop_first())
    }
}

/// The hand `h` can be emptied by exactly `n` Shows, each of a contiguous
/// range that forms a set.
#[verifier::opaque]
pub open spec fn clears_in(h: Seq<i32>, n: nat) -> bool {
    exists|plan: Seq<(int, int)>| plan.len() == n && #[trigger] plan_clears(h, plan)
}

/// A first Show of a set, followed by `n` Shows that empty what is left,
/// empties the hand in `n + 1`.
pub proof fn lemma_clears_after(h: Seq<i32>, s: int, t: int, n: nat)
    requires
        0 <= s <= t < h.len(),
        rank(h.subrange(s, t + 1)) > 0,
        clears_in(without_range(h, s, t), n),
    ensures
        clears_in(h, n + 1),
{
    reveal(clears_in);    let plan = choose|plan: Seq<(int, int)>|
        plan.len() == n && #[trigger] plan_clears(without_range(h, s, t), plan);
    let longer = seq![(s, t)] + plan;
    assert(longer.drop_first() =~= plan);
    assert(plan_clears(h, longer));
}

/// Emptying a hand in `n > 0` Shows starts with a Show of a set that leaves
/// a hand emptied in `n - 1`.
pub proof fn lemma_first_show(h: Seq<i32>, n: nat) -> (st: (int, int))
    requires
        clears_in(h, n),
        n > 0,
    ensures
        0 <= st.0 <= st.1 < h.len(),
        rank(h.subrange(st.0, st.1 + 1)) > 0,
        clears_in(without_range(h, st.0, st.1), (n - 1) as nat),
{
    reveal(clears_in);    let plan = choose|plan: Seq<(int, int)>| plan.len() == n && #[trigger] plan_clears(h, plan);
    let st = plan[0];
    assert(plan_clears(without_range(h, st.0, st.1), plan.drop_first()));
    st
}

/// An empty hand needs no Show, and only an empty hand.
pub proof fn lemma_clears_in_zero(h: Seq<i32>)
    ensures
        clears_in(h, 0) == (h.len() == 0),
{
    reveal(clears_in);    if h.len() == 0 {
        assert(plan_clears(h, Seq::<(int, int)>::empty()));
    }
    if clears_in(h, 0) {
        let plan = choose|plan: Seq<(int, int)>| plan.len() == 0 && #[trigger] plan_clears(h, plan);
    }
}

/// The fewest Shows that empty `h`, or `UNCLEARABLE` where none do.
pub open spec fn min_shows(h: Seq<i32>) -> nat {
    if exists|n: nat| clears_in(h, n) {
        choose|n: nat| clears_in(h, n) && forall|m: nat| #[trigger] clears_in(h, m) ==> n <= m
    } else {
        UNCLEARABLE as nat
    }
}

/// Each Show takes at least one card.
pub proof fn lemma_clears_within_len(h: Seq<i32>, n: nat)
    requires
        clears_in(h, n),
    ensures
        n <= h.len(),
    decreases n,
{
    if n > 0 {
        let st = lemma_first_show(h, n);
        lemma_clears_within_len(without_range(h, st.0, st.1), (n - 1) as nat);
    }
}

proof fn lemma_least_exists(h: Seq<i32>, n: nat)
    requires
        clears_in(h, n),
    ensures
        exists|k: nat| clears_in(h, k) && forall|m: nat| #[trigger] clears_in(h, m) ==> k <= m,
    decreases n,
{
    if exists|m: nat| m < n && clears_in(h, m) {
        let m = choose|m: nat| m < n && clears_in(h, m);
        lemma_least_exists(h, m);
    } else {
        assert forall|m: nat| #[trigger] clears_in(h, m) implies n <= m by {}
    }
}

/// What `min_shows` means: the least count that empties the hand, or
/// `UNCLEARABLE` exactly where no count does.
pub proof fn lemma_min_shows(h: Seq<i32>)
    requires
        h.len() < UNCLEARABLE,
    ensures
        min_shows(h) <= UNCLEARABLE,
        min_shows(h) < UNCLEARABLE ==> clears_in(h, min_shows(h)),
        forall|m: nat| #[trigger] clears_in(h, m) ==> min_shows(h) <= m,
        min_shows(h) == UNCLEARABLE <==> forall|m: nat| !#[trigger] clears_in(h, m),
{
    if exists|n: nat| clears_in(h, n) {
        let n = choose|n: nat| clears_in(h, n);
        lemma_least_exists(h, n);
        lemma_clears_within_len(h, min_shows(h));
    }
}

/// A hand that is itself a set, a single card among them, is emptied by
/// one Show and no fewer.
pub proof fn lemma_set_hand_one_show(h: Seq<i32>)
    requires
        rank(h) > 0,
    ensures
        min_shows(h) == 1,
{
    lemma_ranked_shape(h);
    let last = h.len() - 1;
    assert(h.subrange(0, last + 1) =~= h);
    assert(without_range(h, 0, last) =~= Seq::<i32>::empty());
    lemma_clears_in_zero(without_range(h, 0, last));
    lemma_clears_after(h, 0, last, 0);
    lemma_clears_in_zero(h);
    lemma_min_shows(h);
}

/// Answers of earlier searches, keyed by the exact sequence of the hand.
pub struct TurnsCache {
    entries: Vec<(Vec<i32>, usize)>,
}

impl TurnsCache {
    /// Each entry holds a hand and the fewest Shows that empty it.
    pub closed spec fn wf(&self) -> bool {
        forall|i: int|
            0 <= i < self.entries@.len() ==> (#[trigger] self.entries@[i]).1 == min_shows(
                self.entries@[i].0@,
            )
    }

    /// An empty cache.
    pub fn new() -> (r: TurnsCache)
        ensures
            r.wf(),
    {
        TurnsCache { entries: Vec::new() }
    }

    fn lookup(&self, h: &Vec<i32>) -> (r: Option<usize>)
        requires
            self.wf(),
        ensures
            r matches Some(v) ==> v == min_shows(h@),
    {
        let mut i: usize = 0;
        while i < self.entries.len()
            invariant
                self.wf(),
                i <= self.entries@.len(),
            decreases self.entries@.len() - i,
        {
            let e = &self.entries[i];
            if same_values(&e.0, h, 0, h.len()) {
                assert(h@.subrange(0, h@.len() as int) =~= h@);
                return Some(e.1);
            }
            i += 1;
        }
        None
    }

    fn insert(&mut self, h: Vec<i32>, v: usize)
        requires
            old(self).wf(),
            v == min_shows(h@),
        ensures
            final(self).wf(),
    {
        self.entries.push((h, v));
        assert forall|i: int| 0 <= i < self.entries@.len() implies (#[trigger] self.entries@[i]).1
            == min_shows(self.entries@[i].0@) by {
            if i < old(self).entries@.len() {
                assert(self.entries@[i] == old(self).entries@[i]);
            }
        }
    }
}

/// `h` without the values from `start` to `stop`, both included.
fn cut(h: &Vec<i32>, start: usize, stop: usize) -> (r: Vec<i32>)
    requires
        start <= stop < h@.len(),
    ensures
        r@ == without_range(h@, start as int, stop as int),
{
    let mut r: Vec<i32> = Vec::new();
    let mut i: usize = 0;
    while i < h.len()
        invariant
            start <= stop < h@.len(),
            i <= h@.len(),
            r@ == without_range(h@.subrange(0, i as int), start as int, stop as int)
                || (i <= stop && r@ == h@.subrange(0, if i < start { i as int } else { start as int })),
            i <= start ==> r@ == h@.subrange(0, i as int),
            start < i <= stop + 1 ==> r@ == h@.subrange(0, start as int),
            i > stop ==> r@ == h@.subrange(0, start as int) + h@.subrange(stop + 1, i as int),
        decreases h@.len() - i,
    {
        if i < start || i > stop {
            r.push(h[i]);
        }
        i += 1;
        assert(i <= start ==> r@ =~= h@.subrange(0, i as int));
        assert(i > stop + 1 ==> r@ =~= h@.subrange(0, start as int) + h@.subrange(stop + 1, i as int));
        assert(i == stop + 1 ==> h@.subrange(stop + 1, i as int) =~= Seq::<i32>::empty());
        assert(i == stop + 1 ==> r@ =~= h@.subrange(0, start as int) + h@.subrange(stop + 1, i as int));
    }
    r
}

/// The fewest Shows, each of a contiguous range that forms a set, that
/// empty `hand`: 0 for an empty hand, 1 for a hand that is itself a set,
/// `UNCLEARABLE` where no sequence of Shows empties it. Answers for hands
/// met along the way are kept in `cache` and reused.
pub fn turns_to_empty(hand: &Vec<i32>, set_map: &SetMap, cache: &mut TurnsCache) -> (r: usize)
    requires
        set_map.wf(),
        old(cache).wf(),
        hand@.len() < UNCLEARABLE,
    ensures
        final(cache).wf(),
        r == min_shows(hand@),
    decreases hand@.len(),
{
    let n = hand.len();
    proof {
        lemma_min_shows(hand@);
    }
    if n == 0 {
        proof {
            lemma_clears_in_zero(hand@);
        }
        return 0;
    }
    if set_map.rank_of_range(hand, 0, n) > 0 {
        assert(hand@.subrange(0, n as int) =~= hand@);
        proof {
            let last = n as int - 1;
            assert(without_range(hand@, 0, last) =~= Seq::<i32>::empty());
            lemma_clears_in_zero(without_range(hand@, 0, last));
            lemma_clears_after(hand@, 0, last, 0);
            lemma_clears_in_zero(hand@);
        }
        return 1;
    }
    match cache.lookup(hand) {
        Some(v) => {
            return v;
        },
        None => {},
    }
    let mut best: usize = UNCLEARABLE;
    let mut start: usize = 0;
    while start < n
        invariant
            set_map.wf(),
            cache.wf(),
            n == hand@.len() < UNCLEARABLE,
            start <= n,
            best == UNCLEARABLE || (1 <= best && clears_in(hand@, best as nat)),
            forall|s: int, t: int, m: nat|
                0 <= s < start && s <= t < n && rank(hand@.subrange(s, t + 1)) > 0 && #[trigger] clears_in(
                    without_range(hand@, s, t),
                    m,
                ) ==> best <= m + 1,
        decreases n - start,
    {
        let mut stop: usize = start;
        while stop < n
            invariant
                set_map.wf(),
                cache.wf(),
                n == hand@.len() < UNCLEARABLE,
                start <= stop <= n,
                start < n,
                best == UNCLEARABLE || (1 <= best && clears_in(hand@, best as nat)),
                forall|s: int, t: int, m: nat|
                    (s < start || (s == start && t < stop)) && 0 <= s <= t < n && rank(
                        hand@.subrange(s, t + 1),
                    ) > 0 && #[trigger] clears_in(without_range(hand@, s, t), m) ==> best <= m + 1,
            decreases n - stop,
        {
            if set_map.rank_of_range(hand, start, stop + 1) > 0 {
                let rest = cut(hand, start, stop);
                let sub = turns_to_empty(&rest, set_map, cache);
                proof {
                    lemma_min_shows(rest@);
                }
                if sub < UNCLEARABLE && sub + 1 < best {
                    best = sub + 1;
                    proof {
                        lemma_clears_after(hand@, start as int, stop as int, sub as nat);
                    }
                }
            }
            stop += 1;
        }
        start += 1;
    }
    proof {
        lemma_min_shows(hand@);
        let m0 = min_shows(hand@);
        if m0 < UNCLEARABLE {
            lemma_clears_in_zero(hand@);
            let st = lemma_first_show(hand@, m0);
            assert(clears_in(without_range(hand@, st.0, st.1), (m0 - 1) as nat));
            assert(best <= m0);
        }
        if best < UNCLEARABLE {
            assert(clears_in(hand@, best as nat));
            assert(m0 <= best);
            assert(m0 < UNCLEARABLE);
            assert(best == m0);
        }
    }
    let key = hand.clone();
    assert(key@ =~= hand@);
    cache.insert(key, best);
    best
}

} // verus!
