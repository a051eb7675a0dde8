use vstd::prelude::*;

verus! {

/// The highest face value a card can carry.
pub const MAX_FACE: i32 = 9;

/// The largest number of cards in a ranked set.
pub const MAX_SET_SIZE: i32 = 9;

/// Every value of `s` equals the first.
pub open spec fn is_flush(s: Seq<i32>) -> bool {
    forall|j: int| 0 <= j < s.len() ==> #[trigger] s[j] == s[0]
}

/// The values of `s` climb by one from left to right.
pub open spec fn is_rising(s: Seq<i32>) -> bool {
    forall|j: int| 0 <= j < s.len() ==> #[trigger] s[j] == s[0] + j
}

/// The values of `s` fall by one from left to right.
pub open spec fn is_falling(s: Seq<i32>) -> bool {
    forall|j: int| 0 <= j < s.len() ==> #[trigger] s[j] == s[0] - j
}

/// A face value that a card can carry.
pub open spec fn is_face(v: int) -> bool {
    0 <= v <= MAX_FACE
}

/// The rank just below every set of `k` cards (k from 2 up).
pub open spec fn size_floor(k: int) -> int {
    10 + 20 * (k - 2)
}

/// The strength of a set of face values, 0 where the values form no set.
///
/// Singles come first, ranked by value. Then, size by size from 2 to 9,
/// the straights (a run climbing or falling by one, ranked by its lowest
/// value, which is 0 to 9) and after them the flushes of that size (ranked
/// by their value).
#[verifier::opaque]
pub open spec fn rank(s: Seq<i32>) -> int {
    let k = s.len() as int;
    if k == 1 && is_face(s[0] as int) {
        s[0] + 1
    } else if 2 <= k <= MAX_SET_SIZE && is_face(s[0] as int) && is_flush(s) {
        size_floor(k) + 10 + s[0] + 1
    } else if 2 <= k <= MAX_SET_SIZE && is_face(s[0] as int) && is_rising(s) {
        size_floor(k) + s[0] + 1
    } else if 2 <= k <= MAX_SET_SIZE && is_face(s[k - 1] as int) && is_falling(s) {
        size_floor(k) + s[k - 1] + 1
    } else {
        0
    }
}

/// No set ranks below 0.
pub proof fn lemma_rank_nonneg(s: Seq<i32>)
    ensures
        rank(s) >= 0,
{
    reveal(rank);
}

/// A set of more cards outranks any set of fewer cards (three of a kind
/// outranks a pair).
pub proof fn lemma_bigger_set_outranks(a: Seq<i32>, b: Seq<i32>)
    requires
        rank(a) > 0,
        rank(b) > 0,
        a.len() > b.len(),
    ensures
        rank(a) > rank(b),
{
    reveal(rank);
}

/// A flush outranks every straight of the same size.
pub proof fn lemma_flush_beats_straight(f: Seq<i32>, s: Seq<i32>)
    requires
        rank(f) > 0,
        rank(s) > 0,
        f.len() == s.len() >= 2,
        is_flush(f),
        is_rising(s) || is_falling(s),
    ensures
        rank(f) > rank(s),
{
    reveal(rank);
    assert(!is_flush(s)) by {
        if is_rising(s) {
            assert(s[1] == s[0] + 1);
        } else {
            assert(s[1] == s[0] - 1);
        }
    }
}

/// A straight read backwards has the same rank.
pub proof fn lemma_reverse_same_rank(s: Seq<i32>)
    requires
        rank(s) > 0,
        is_rising(s),
    ensures
        rank(s.reverse()) == rank(s),
{
    reveal(rank);
    let k = s.len() as int;
    let r = s.reverse();
    if k == 1 {
        assert(r =~= s);
    } else {
        assert(s[1] == s[0] + 1);
        assert(!is_flush(s));
        assert(forall|j: int| 0 <= j < k ==> #[trigger] r[j] == s[k - 1 - j]);
        assert(is_falling(r)) by {
            assert forall|j: int| 0 <= j < k implies #[trigger] r[j] == r[0] - j by {
                assert(s[k - 1 - j] == s[0] + (k - 1 - j));
                assert(s[k - 1] == s[0] + (k - 1));
            }
        }
        assert(r[1] == r[0] - 1);
        assert(!is_flush(r));
        assert(!is_rising(r));
        assert(r[k - 1] == s[0]);
    }
}

/// Every single card ranks below every set of two or more, and the lowest
/// rank of all, 1, belongs to the single 0 alone.
pub proof fn lemma_single_least(single: Seq<i32>, t: Seq<i32>)
    requires
        single.len() == 1,
        rank(single) > 0,
        rank(t) > 0,
    ensures
        t.len() >= 2 ==> rank(single) < rank(t),
        rank(t) >= 1,
        rank(t) == 1 <==> t =~= seq![0i32],
{
    reveal(rank);
    if rank(t) == 1 {
        assert(t.len() == 1);
    }
}

/// The run of `k` values that starts at `first` and moves by `step`.
pub open spec fn progression(first: int, step: int, k: nat) -> Seq<i32> {
    Seq::new(k, |j: int| (first + step * j) as i32)
}

/// Some entry of `entries` has the key `s`.
pub open spec fn listed(entries: Seq<(Vec<i32>, i32)>, s: Seq<i32>) -> bool {
    exists|i: int| 0 <= i < entries.len() && (#[trigger] entries[i]).0@ == s
}

/// Every entry holds a set and its rank.
pub open spec fn entries_ranked(entries: Seq<(Vec<i32>, i32)>) -> bool {
    forall|i: int|
        0 <= i < entries.len() ==> rank((#[trigger] entries[i]).0@) > 0 && entries[i].1
            == rank(entries[i].0@)
}

/// The table of ranks: for every set of face values, its strength.
pub struct SetMap {
    entries: Vec<(Vec<i32>, i32)>,
}

impl SetMap {
    /// Each entry is a set with its rank, and each set has an entry.
    pub closed spec fn wf(&self) -> bool {
        &&& entries_ranked(self.entries@)
        &&& forall|s: Seq<i32>| #[trigger] rank(s) > 0 ==> listed(self.entries@, s)
    }

    /// The rank of the values `h[start..end]`, found in the table.
    fn find(&self, h: &Vec<i32>, start: usize, end: usize) -> (r: Option<usize>)
        requires
            self.wf(),
            start <= end <= h@.len(),
        ensures
            match r {
                Some(i) => i < self.entries@.len() && self.entries@[i as int].0@ == h@.subrange(
                    start as int,
                    end as int,
                ),
                None => rank(h@.subrange(start as int, end as int)) == 0,
            },
    {
        let n = self.entries.len();
        let mut i: usize = 0;
        while i < n
            invariant
                self.wf(),
                n == self.entries@.len(),
                i <= n,
                start <= end <= h@.len(),
                forall|j: int|
                    0 <= j < i ==> (#[trigger] self.entries@[j]).0@ != h@.subrange(
                        start as int,
                        end as int,
                    ),
            decreases n - i,
        {
            if same_values(&self.entries[i].0, h, start, end) {
                return Some(i);
            }
            i += 1;
        }
        proof {
            let key = h@.subrange(start as int, end as int);
            lemma_rank_nonneg(key);
            if rank(key) > 0 {
                assert(listed(self.entries@, key));
            }
        }
        None
    }

    /// The rank of `key`, if it is a set.
    pub fn get(&self, key: &Vec<i32>) -> (r: Option<&i32>)
        requires
            self.wf(),
        ensures
            match r {
                Some(v) => rank(key@) > 0 && *v == rank(key@),
                None => rank(key@) == 0,
            },
    {
        assert(key@.subrange(0, key@.len() as int) =~= key@);
        match self.find(key, 0, key.len()) {
            Some(i) => Some(&self.entries[i].1),
            None => None,
        }
    }

    /// The rank of the values `h[start..end]`, 0 where they form no set.
    pub fn rank_of_range(&self, h: &Vec<i32>, start: usize, end: usize) -> (r: i32)
        requires
            self.wf(),
            start <= end <= h@.len(),
        ensures
            r == rank(h@.subrange(start as int, end as int)),
    {
        match self.find(h, start, end) {
            Some(i) => self.entries[i].1,
            None => 0,
        }
    }
}

/// Whether `a` holds the same values as `h[start..end]`.
pub(crate) fn same_values(a: &Vec<i32>, h: &Vec<i32>, start: usize, end: usize) -> (r: bool)
    requires
        start <= end <= h@.len(),
    ensures
        r == (a@ == h@.subrange(start as int, end as int)),
{
    if a.len() != end - start {
        return false;
    }
    let mut j: usize = 0;
    while j < a.len()
        invariant
            a@.len() == end - start,
            start <= end <= h@.len(),
            j <= a@.len(),
            forall|x: int| 0 <= x < j ==> a@[x] == h@[start + x],
        decreases a@.len() - j,
    {
        if a[j] != h[start + j] {
            return false;
        }
        j += 1;
    }
    assert(a@ =~= h@.subrange(start as int, end as int));
    true
}


/// The run of `size` values that starts at `first` and moves by `step`.
fn progression_key(first: i32, step: i32, size: i32) -> (r: Vec<i32>)
    requires
        -1 <= step <= 1,
        0 <= first <= 2 * MAX_FACE,
        0 <= size <= MAX_SET_SIZE,
    ensures
        r@ == progression(first as int, step as int, size as nat),
{
    let mut r: Vec<i32> = Vec::new();
    let mut v: i32 = first;
    let mut j: i32 = 0;
    while j < size
        invariant
            -1 <= step <= 1,
            0 <= first <= 2 * MAX_FACE,
            0 <= j <= size <= MAX_SET_SIZE,
            r@.len() == j,
            v == first + step * j,
            forall|x: int| 0 <= x < j ==> r@[x] == (first + step * x) as i32,
        decreases size - j,
    {
        proof {
            assert(-j <= step * j <= j) by (nonlinear_arith)
                requires
                    -1 <= step <= 1,
                    0 <= j,
            ;
            assert(first + step * (j + 1) == first + step * j + step) by (nonlinear_arith);
        }
        r.push(v);
        v = v + step;
        j = j + 1;
    }
    assert(r@ =~= progression(first as int, step as int, size as nat));
    r
}

proof fn lemma_push_keeps_listed(entries: Seq<(Vec<i32>, i32)>, e: (Vec<i32>, i32))
    ensures
        listed(entries.push(e), e.0@),
        forall|s: Seq<i32>| listed(entries, s) ==> #[trigger] listed(entries.push(e), s),
{
    assert(entries.push(e)[entries.len() as int] == e);
    assert forall|s: Seq<i32>| listed(entries, s) implies #[trigger] listed(entries.push(e), s) by {
        let i = choose|i: int| 0 <= i < entries.len() && (#[trigger] entries[i]).0@ == s;
        assert(entries.push(e)[i] == entries[i]);
    }
}

/// The rank of each generated shape.
proof fn lemma_shape_ranks(b: int, k: int)
    requires
        is_face(b),
        1 <= k <= MAX_SET_SIZE,
    ensures
        k == 1 ==> rank(progression(b, 0, 1)) == b + 1,
        k >= 2 ==> rank(progression(b, 0, k as nat)) == size_floor(k) + 10 + b + 1,
        k >= 2 ==> rank(progression(b, 1, k as nat)) == size_floor(k) + b + 1,
        k >= 2 ==> rank(progression(b + k - 1, -1, k as nat)) == size_floor(k) + b + 1,
{
    reveal(rank);
    let f = progression(b, 0, k as nat);
    let u = progression(b, 1, k as nat);
    let d = progression(b + k - 1, -1, k as nat);
    assert(is_flush(f));
    assert(is_rising(u));
    assert(is_falling(d));
    if k >= 2 {
        assert(u[1] != u[0]);
        assert(d[1] != d[0]);
        assert(d[1] != d[0] + 1);
    }
}

/// Every set has one of the generated shapes.
pub proof fn lemma_ranked_shape(s: Seq<i32>)
    requires
        rank(s) > 0,
    ensures
        s.len() >= 1,
        s.len() == 1 ==> is_face(s[0] as int) && s == progression(s[0] as int, 0, 1),
        s.len() >= 2 ==> s.len() <= MAX_SET_SIZE && (
        (is_face(s[0] as int) && s == progression(s[0] as int, 0, s.len()))
            || (is_face(s[0] as int) && s == progression(s[0] as int, 1, s.len()))
            || (is_face(s[s.len() - 1] as int) && s == progression(
            s[s.len() - 1] + s.len() - 1,
            -1,
            s.len(),
        ))),
{
    reveal(rank);
    let k = s.len() as int;
    if k == 1 {
        assert(s =~= progression(s[0] as int, 0, 1));
    } else if is_face(s[0] as int) && is_flush(s) {
        assert(s =~= progression(s[0] as int, 0, s.len()));
    } else if is_face(s[0] as int) && is_rising(s) {
        assert(s =~= progression(s[0] as int, 1, s.len()));
    } else {
        assert(s[k - 1] == s[0] - (k - 1));
        assert(s =~= progression(s[k - 1] + k - 1, -1, s.len()));
    }
}

/// The table of every set of face values with its rank: singles by value,
/// then for each size from 2 to 9 the straights, a climbing run and the same
/// run falling sharing one rank, followed by the flushes.
pub fn default_set_map() -> (r: SetMap)
    ensures
        r.wf(),
{
    let mut entries: Vec<(Vec<i32>, i32)> = Vec::new();
    let mut i: i32 = 1;
    let mut base: i32 = 0;
    while base <= MAX_FACE
        invariant
            0 <= base <= MAX_FACE + 1,
            i == base + 1,
            entries_ranked(entries@),
            forall|b: int| 0 <= b < base ==> #[trigger] listed(entries@, progression(b, 0, 1)),
        decreases MAX_FACE + 1 - base,
    {
        let key = progression_key(base, 0, 1);
        proof {
            lemma_shape_ranks(base as int, 1);
            lemma_push_keeps_listed(entries@, (key, i));
        }
        entries.push((key, i));
        i += 1;
        base += 1;
    }
    let mut size: i32 = 2;
    while size <= MAX_SET_SIZE
        invariant
            2 <= size <= MAX_SET_SIZE + 1,
            i == size_floor(size as int) + 1,
            entries_ranked(entries@),
            forall|b: int| 0 <= b <= MAX_FACE ==> #[trigger] listed(entries@, progression(b, 0, 1)),
            forall|b: int, k: int|
                2 <= k < size && is_face(b) ==> #[trigger] listed(
                    entries@,
                    progression(b, 0, k as nat),
                ),
            forall|b: int, k: int|
                2 <= k < size && is_face(b) ==> #[trigger] listed(
                    entries@,
                    progression(b, 1, k as nat),
                ),
            forall|b: int, k: int|
                2 <= k < size && is_face(b) ==> #[trigger] listed(
                    entries@,
                    progression(b + k - 1, -1, k as nat),
                ),
        decreases MAX_SET_SIZE + 1 - size,
    {
        let mut base: i32 = 0;
        while base <= MAX_FACE
            invariant
                2 <= size <= MAX_SET_SIZE,
                0 <= base <= MAX_FACE + 1,
                i == size_floor(size as int) + base + 1,
                entries_ranked(entries@),
                forall|b: int| 0 <= b <= MAX_FACE ==> #[trigger] listed(entries@, progression(b, 0, 1)),
                forall|b: int, k: int|
                    2 <= k < size && is_face(b) ==> #[trigger] listed(
                        entries@,
                        progression(b, 0, k as nat),
                    ),
                forall|b: int, k: int|
                    (2 <= k < size && is_face(b)) || (k == size && 0 <= b < base) ==> #[trigger] listed(
                        entries@,
                        progression(b, 1, k as nat),
                    ),
                forall|b: int, k: int|
                    (2 <= k < size && is_face(b)) || (k == size && 0 <= b < base) ==> #[trigger] listed(
                        entries@,
                        progression(b + k - 1, -1, k as nat),
                    ),
            decreases MAX_FACE + 1 - base,
        {
            let up = progression_key(base, 1, size);
            let down = progression_key(base + size - 1, -1, size);
            proof {
                lemma_shape_ranks(base as int, size as int);
                lemma_push_keeps_listed(entries@, (up, i));
                lemma_push_keeps_listed(entries@.push((up, i)), (down, i));
            }
            entries.push((up, i));
            entries.push((down, i));
            i += 1;
            base += 1;
        }
        let mut base: i32 = 0;
        while base <= MAX_FACE
            invariant
                2 <= size <= MAX_SET_SIZE,
                0 <= base <= MAX_FACE + 1,
                i == size_floor(size as int) + 10 + base + 1,
                entries_ranked(entries@),
                forall|b: int| 0 <= b <= MAX_FACE ==> #[trigger] listed(entries@, progression(b, 0, 1)),
                forall|b: int, k: int|
                    (2 <= k < size && is_face(b)) || (k == size && 0 <= b < base) ==> #[trigger] listed(
                        entries@,
                        progression(b, 0, k as nat),
                    ),
                forall|b: int, k: int|
                    2 <= k <= size && is_face(b) ==> #[trigger] listed(
                        entries@,
                        progression(b, 1, k as nat),
                    ),
                forall|b: int, k: int|
                    2 <= k <= size && is_face(b) ==> #[trigger] listed(
                        entries@,
                        progression(b + k - 1, -1, k as nat),
                    ),
            decreases MAX_FACE + 1 - base,
        {
            let flush = progression_key(base, 0, size);
            proof {
                lemma_shape_ranks(base as int, size as int);
                lemma_push_keeps_listed(entries@, (flush, i));
            }
            entries.push((flush, i));
            i += 1;
            base += 1;
        }
        size += 1;
    }
    let r = SetMap { entries };
    assert forall|s: Seq<i32>| #[trigger] rank(s) > 0 implies listed(r.entries@, s) by {
        lemma_ranked_shape(s);
        let k = s.len() as int;
        if k == 1 {
            assert(listed(r.entries@, progression(s[0] as int, 0, 1)));
        } else if is_face(s[0] as int) && s == progression(s[0] as int, 0, s.len()) {
            assert(listed(r.entries@, progression(s[0] as int, 0, k as nat)));
        } else if is_face(s[0] as int) && s == progression(s[0] as int, 1, s.len()) {
            assert(listed(r.entries@, progression(s[0] as int, 1, k as nat)));
        } else {
            let b = s[k - 1] as int;
            assert(listed(r.entries@, progression(b + k - 1, -1, k as nat)));
        }
    }
    r
}

} // verus!
