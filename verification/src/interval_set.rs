use vstd::prelude::*;

use std::cmp::Ordering;

verus! {

/// Half-open integral interval [begin, end).
#[derive(PartialEq, Clone, Copy, Eq, Debug)]
pub struct IntInterval {
    pub begin: usize,
    pub end: usize,
}

/// Strict order on intervals: by `begin` ascending, then by `end` descending.
pub open spec fn iv_lt(a: IntInterval, b: IntInterval) -> bool {
    a.begin < b.begin || (a.begin == b.begin && a.end > b.end)
}

pub open spec fn iv_le(a: IntInterval, b: IntInterval) -> bool {
    !iv_lt(b, a)
}

/// The intervals are sorted by the interval order.
pub open spec fn ivs_sorted(s: Seq<IntInterval>) -> bool {
    forall|i: int, j: int| 0 <= i <= j < s.len() ==> iv_le(#[trigger] s[i], #[trigger] s[j])
}

/// The point `v` lies in one of the intervals.
pub open spec fn covers(s: Seq<IntInterval>, v: int) -> bool {
    exists|i: int| 0 <= i < s.len() && #[trigger] s[i].begin <= v < s[i].end
}

/// Non-empty, sorted intervals separated by gaps (no overlap, no adjacency).
pub open spec fn ivs_normalized(s: Seq<IntInterval>) -> bool {
    &&& forall|i: int| 0 <= i < s.len() ==> #[trigger] s[i].begin < s[i].end
    &&& forall|i: int, j: int| 0 <= i < j < s.len() ==> #[trigger] s[i].end < #[trigger] s[j].begin
}

/// The first interval of a normalized sequence starts at its least point and
/// ends at the first point after it that is not covered; the rest covers
/// exactly the points from its end on.
proof fn lemma_normalized_head(a: Seq<IntInterval>)
    requires
        ivs_normalized(a),
        a.len() > 0,
    ensures
        covers(a, a[0].begin as int),
        forall|x: int| x < a[0].begin ==> !#[trigger] covers(a, x),
        forall|x: int| a[0].begin <= x < a[0].end ==> #[trigger] covers(a, x),
        !covers(a, a[0].end as int),
        ivs_normalized(a.drop_first()),
        forall|x: int| #[trigger] covers(a.drop_first(), x) == (covers(a, x) && x > a[0].end),
{
    assert(a[0].begin <= a[0].begin < a[0].end);
    assert forall|x: int| x < a[0].begin implies !#[trigger] covers(a, x) by {
        if covers(a, x) {
            let i = choose|i: int| 0 <= i < a.len() && #[trigger] a[i].begin <= x < a[i].end;
            if i > 0 {
                assert(a[0].end < a[i].begin);
            }
        }
    }
    assert forall|x: int| a[0].begin <= x < a[0].end implies #[trigger] covers(a, x) by {
        assert(a[0].begin <= x < a[0].end);
    }
    if covers(a, a[0].end as int) {
        let i = choose|i: int| 0 <= i < a.len() && #[trigger] a[i].begin <= a[0].end < a[i].end;
        if i > 0 {
            assert(a[0].end < a[i].begin);
        }
    }
    let t = a.drop_first();
    assert forall|i: int, j: int| 0 <= i < j < t.len() implies #[trigger] t[i].end < #[trigger] t[j].begin by {
        assert(t[i] == a[i + 1] && t[j] == a[j + 1]);
    }
    assert forall|x: int| #[trigger] covers(t, x) == (covers(a, x) && x > a[0].end) by {
        if covers(t, x) {
            let i = choose|i: int| 0 <= i < t.len() && #[trigger] t[i].begin <= x < t[i].end;
            assert(t[i] == a[i + 1]);
            assert(a[0].end < a[i + 1].begin);
            assert(a[i + 1].begin <= x < a[i + 1].end);
        }
        if covers(a, x) && x > a[0].end {
            let i = choose|i: int| 0 <= i < a.len() && #[trigger] a[i].begin <= x < a[i].end;
            assert(i != 0);
            assert(t[i - 1] == a[i]);
            assert(t[i - 1].begin <= x < t[i - 1].end);
        }
    }
}

/// A normalized sequence of intervals is determined by the points it covers:
/// normalizing twice gives what normalizing once gives.
pub proof fn lemma_normalized_unique(a: Seq<IntInterval>, b: Seq<IntInterval>)
    requires
        ivs_normalized(a),
        ivs_normalized(b),
        forall|x: int| #[trigger] covers(a, x) == covers(b, x),
    ensures
        a == b,
    decreases a.len() + b.len(),
{
    if a.len() == 0 || b.len() == 0 {
        if a.len() > 0 {
            assert(a[0].begin <= a[0].begin < a[0].end);
            assert(covers(a, a[0].begin as int));
            assert(covers(a, a[0].begin as int) == covers(b, a[0].begin as int));
        }
        if b.len() > 0 {
            assert(b[0].begin <= b[0].begin < b[0].end);
            assert(covers(b, b[0].begin as int));
            assert(covers(a, b[0].begin as int) == covers(b, b[0].begin as int));
        }
        assert(a =~= b);
    } else {
        lemma_normalized_head(a);
        lemma_normalized_head(b);
        let (ab, ae, bb, be) = (a[0].begin as int, a[0].end as int, b[0].begin as int, b[0].end as int);
        assert(ab == bb) by {
            assert(covers(b, ab));
            assert(covers(a, bb));
        }
        assert(ae == be) by {
            if ae < be {
                assert(covers(b, ae));
            }
            if be < ae {
                assert(covers(a, be));
            }
        }
        assert forall|x: int| #[trigger] covers(a.drop_first(), x) == covers(b.drop_first(), x) by {
            assert(covers(a.drop_first(), x) == (covers(a, x) && x > ae));
            assert(covers(b.drop_first(), x) == (covers(b, x) && x > be));
        }
        lemma_normalized_unique(a.drop_first(), b.drop_first());
        assert(a[0] == b[0]);
        assert(a =~= seq![a[0]] + a.drop_first());
        assert(b =~= seq![b[0]] + b.drop_first());
    }
}

/// Every empty interval [a, b) (b <= a) starts within (or at the end of) a non-empty one.
pub open spec fn empty_intervals_covered(s: Seq<IntInterval>) -> bool {
    forall|i: int|
        0 <= i < s.len() && #[trigger] s[i].begin >= s[i].end ==> exists|j: int|
            0 <= j < s.len() && #[trigger] s[j].begin < s[j].end && s[j].begin <= s[i].begin <= s[j].end
}

/// Both sequences hold the same intervals (ignoring order and multiplicity).
#[verifier::opaque]
pub open spec fn same_elements(a: Seq<IntInterval>, b: Seq<IntInterval>) -> bool {
    &&& forall|i: int| 0 <= i < a.len() ==> exists|j: int| 0 <= j < b.len() && #[trigger] b[j] == #[trigger] a[i]
    &&& forall|j: int| 0 <= j < b.len() ==> exists|i: int| 0 <= i < a.len() && #[trigger] a[i] == #[trigger] b[j]
}

/// Sum of the lengths of the intervals.
pub open spec fn total_len(s: Seq<IntInterval>) -> int
    decreases s.len(),
{
    if s.len() == 0 {
        0
    } else {
        total_len(s.drop_last()) + (s.last().end - s.last().begin)
    }
}

impl IntInterval {
    pub fn new(begin: usize, end: usize) -> (r: Self)
        ensures
            r.begin == begin && r.end == end,
    {
        IntInterval { begin, end }
    }

    /// Whether `self` comes strictly before `other` in the interval order.
    pub fn precedes(&self, other: &Self) -> (b: bool)
        ensures
            b == iv_lt(*self, *other),
    {
        self.begin < other.begin || (self.begin == other.begin && self.end > other.end)
    }

    /// Compares by `begin` first, then by `end` in reverse.
    pub fn cmp(&self, other: &Self) -> (r: Ordering)
        ensures
            (r == Ordering::Less) == iv_lt(*self, *other),
            (r == Ordering::Greater) == iv_lt(*other, *self),
            (r == Ordering::Equal) == (*self == *other),
    {
        if self.begin < other.begin {
            Ordering::Less
        } else if self.begin > other.begin {
            Ordering::Greater
        } else if self.end < other.end {
            Ordering::Greater
        } else if self.end > other.end {
            Ordering::Less
        } else {
            Ordering::Equal
        }
    }
}

proof fn lemma_covers_push(s: Seq<IntInterval>, c: IntInterval, x: int)
    ensures
        covers(s.push(c), x) == (covers(s, x) || (c.begin <= x < c.end)),
{
    if covers(s, x) {
        let i = choose|i: int| 0 <= i < s.len() && #[trigger] s[i].begin <= x < s[i].end;
        assert(s.push(c)[i] == s[i]);
    }
    if c.begin <= x < c.end {
        assert(s.push(c)[s.len() as int] == c);
    }
    if covers(s.push(c), x) {
        let i = choose|i: int| 0 <= i < s.push(c).len() && #[trigger] s.push(c)[i].begin <= x < s.push(c)[i].end;
        if i < s.len() {
            assert(s[i] == s.push(c)[i]);
        }
    }
}

proof fn lemma_covers_split(s: Seq<IntInterval>, i: int, j: int, x: int)
    requires
        0 <= i <= j <= s.len(),
    ensures
        covers(s.subrange(0, j), x) == (covers(s.subrange(0, i), x) || covers(s.subrange(i, j), x)),
{
    let a = s.subrange(0, j);
    let b = s.subrange(0, i);
    let c = s.subrange(i, j);
    if covers(a, x) {
        let k = choose|k: int| 0 <= k < a.len() && #[trigger] a[k].begin <= x < a[k].end;
        if k < i {
            assert(b[k] == a[k]);
        } else {
            assert(c[k - i] == a[k]);
        }
    }
    if covers(b, x) {
        let k = choose|k: int| 0 <= k < b.len() && #[trigger] b[k].begin <= x < b[k].end;
        assert(a[k] == b[k]);
    }
    if covers(c, x) {
        let k = choose|k: int| 0 <= k < c.len() && #[trigger] c[k].begin <= x < c[k].end;
        assert(a[k + i] == c[k]);
    }
}

proof fn lemma_covers_same_elements(a: Seq<IntInterval>, b: Seq<IntInterval>, x: int)
    requires
        same_elements(a, b),
    ensures
        covers(a, x) == covers(b, x),
{
    reveal(same_elements);
    if covers(a, x) {
        let i = choose|i: int| 0 <= i < a.len() && #[trigger] a[i].begin <= x < a[i].end;
        let j = choose|j: int| 0 <= j < b.len() && #[trigger] b[j] == #[trigger] a[i];
        assert(b[j].begin <= x < b[j].end);
    }
    if covers(b, x) {
        let j = choose|j: int| 0 <= j < b.len() && #[trigger] b[j].begin <= x < b[j].end;
        let i = choose|i: int| 0 <= i < a.len() && #[trigger] a[i] == #[trigger] b[j];
        assert(a[i].begin <= x < a[i].end);
    }
}

proof fn lemma_total_len_push(s: Seq<IntInterval>, c: IntInterval)
    ensures
        total_len(s.push(c)) == total_len(s) + (c.end - c.begin),
{
    assert(s.push(c).drop_last() =~= s);
}

proof fn lemma_sorted_insert(r: Seq<IntInterval>, p: int, x: IntInterval)
    requires
        0 <= p <= r.len(),
        ivs_sorted(r),
        forall|k: int| 0 <= k < p ==> iv_le(#[trigger] r[k], x),
        p < r.len() ==> iv_lt(x, r[p]),
    ensures
        ivs_sorted(r.insert(p, x)),
{
    r.insert_ensures(p, x);
    let q = r.insert(p, x);
    assert forall|a: int, b: int| 0 <= a <= b < q.len() implies iv_le(#[trigger] q[a], #[trigger] q[b]) by {
        if a < p && b < p {
            assert(q[a] == r[a] && q[b] == r[b]);
        } else if a < p && b == p {
            assert(q[a] == r[a]);
        } else if a < p && b > p {
            assert(q[a] == r[a] && q[b] == r[b - 1]);
            assert(iv_le(r[a], r[b - 1]));
        } else if a == p && b == p {
        } else if a == p && b > p {
            assert(q[b] == r[b - 1]);
            assert(iv_le(r[p], r[b - 1]));
        } else {
            assert(q[a] == r[a - 1] && q[b] == r[b - 1]);
            assert(iv_le(r[a - 1], r[b - 1]));
        }
    }
}

proof fn lemma_same_elements_insert(r: Seq<IntInterval>, v: Seq<IntInterval>, i: int, p: int)
    requires
        0 <= i < v.len(),
        0 <= p <= r.len(),
        same_elements(r, v.subrange(0, i)),
    ensures
        same_elements(r.insert(p, v[i]), v.subrange(0, i + 1)),
{
    reveal(same_elements);
    let x = v[i];
    r.insert_ensures(p, x);
    let q = r.insert(p, x);
    let sub = v.subrange(0, i);
    let sub2 = v.subrange(0, i + 1);
    assert forall|a: int| 0 <= a < q.len() implies exists|j: int| 0 <= j < sub2.len() && #[trigger] sub2[j] == #[trigger] q[a] by {
        if a < p {
            assert(q[a] == r[a]);
            let j = choose|j: int| 0 <= j < sub.len() && #[trigger] sub[j] == #[trigger] r[a];
            assert(sub2[j] == sub[j]);
        } else if a == p {
            assert(sub2[i] == x);
        } else {
            assert(q[a] == r[a - 1]);
            let j = choose|j: int| 0 <= j < sub.len() && #[trigger] sub[j] == #[trigger] r[a - 1];
            assert(sub2[j] == sub[j]);
        }
    }
    assert forall|j: int| 0 <= j < sub2.len() implies exists|a: int| 0 <= a < q.len() && #[trigger] q[a] == #[trigger] sub2[j] by {
        if j < i {
            assert(sub2[j] == sub[j]);
            let a = choose|a: int| 0 <= a < r.len() && #[trigger] r[a] == #[trigger] sub[j];
            if a < p {
                assert(q[a] == r[a]);
            } else {
                assert(q[a + 1] == r[a]);
            }
        } else {
            assert(q[p] == sub2[j]);
        }
    }
}

proof fn lemma_group_start_nonempty(v: Seq<IntInterval>, i: int, has_prev: bool, prev_end: int)
    requires
        0 <= i < v.len(),
        ivs_sorted(v),
        empty_intervals_covered(v),
        i > 0 ==> has_prev,
        has_prev ==> forall|m: int| 0 <= m < i ==> #[trigger] v[m].end <= prev_end,
        has_prev ==> prev_end < v[i].begin,
    ensures
        v[i].begin < v[i].end,
{
    if v[i].begin >= v[i].end {
        assert(exists|j: int|
            0 <= j < v.len() && #[trigger] v[j].begin < v[j].end && v[j].begin <= v[i].begin <= v[j].end);
        let m = choose|m: int|
            0 <= m < v.len() && #[trigger] v[m].begin < v[m].end && v[m].begin <= v[i].begin <= v[m].end;
        if m >= i {
            assert(iv_le(v[i], v[m]));
            assert(false);
        } else {
            assert(v[m].end <= prev_end);
            assert(false);
        }
    }
}

/// Sorts intervals by the interval order (stable insertion sort).
fn sort_intervals(v: &Vec<IntInterval>) -> (r: Vec<IntInterval>)
    ensures
        r@.len() == v@.len(),
        ivs_sorted(r@),
        same_elements(r@, v@),
{
    let mut r: Vec<IntInterval> = Vec::new();
    let mut i: usize = 0;
    proof {
        reveal(same_elements);
    }
    while i < v.len()
        invariant
            i <= v.len(),
            r@.len() == i,
            ivs_sorted(r@),
            same_elements(r@, v@.subrange(0, i as int)),
        decreases v.len() - i,
    {
        let x = v[i];
        let mut p: usize = 0;
        while p < r.len() && !x.precedes(&r[p])
            invariant
                p <= r@.len(),
                forall|k: int| 0 <= k < p ==> iv_le(#[trigger] r@[k], x),
            decreases r.len() - p,
        {
            p += 1;
        }
        let ghost old_r = r@;
        r.insert(p, x);
        proof {
            lemma_sorted_insert(old_r, p as int, x);
            lemma_same_elements_insert(old_r, v@, i as int, p as int);
        }
        i += 1;
    }
    assert(v@.subrange(0, i as int) =~= v@);
    r
}

/// Merges sorted intervals into normalized ones; returns them with their total length.
fn merge_sorted(v: &Vec<IntInterval>) -> (r: (Vec<IntInterval>, usize))
    requires
        ivs_sorted(v@),
        empty_intervals_covered(v@),
    ensures
        ivs_normalized(r.0@),
        forall|x: int| covers(r.0@, x) == covers(v@, x),
        r.1 == total_len(r.0@),
{
    let n = v.len();
    let mut out: Vec<IntInterval> = Vec::new();
    let mut count: usize = 0;
    let mut i: usize = 0;
    while i < n
        invariant
            n == v@.len(),
            ivs_sorted(v@),
            empty_intervals_covered(v@),
            i <= n,
            ivs_normalized(out@),
            forall|x: int| covers(out@, x) == covers(v@.subrange(0, i as int), x),
            i > 0 ==> out@.len() > 0,
            out@.len() > 0 ==> forall|m: int| 0 <= m < i ==> #[trigger] v@[m].end <= out@.last().end,
            out@.len() > 0 && i < n ==> out@.last().end < v@[i as int].begin,
            count == total_len(out@),
            out@.len() > 0 ==> total_len(out@) <= out@.last().end,
        decreases n - i,
    {
        let mut cur = v[i];
        proof {
            lemma_group_start_nonempty(v@, i as int, out@.len() > 0, if out@.len() > 0 { out@.last().end as int } else { 0 });
        }
        let mut j: usize = i + 1;
        proof {
            assert forall|x: int| #[trigger] covers(v@.subrange(i as int, j as int), x) == (cur.begin <= x < cur.end) by {
                let s = v@.subrange(i as int, j as int);
                if cur.begin <= x < cur.end {
                    assert(s[0] == cur);
                }
            }
        }
        while j < n && v[j].begin <= cur.end
            invariant
                n == v@.len(),
                ivs_sorted(v@),
                i < j <= n,
                cur.begin == v@[i as int].begin,
                cur.begin < cur.end,
                forall|m: int| i <= m < j ==> #[trigger] v@[m].end <= cur.end,
                forall|x: int| covers(v@.subrange(i as int, j as int), x) == (cur.begin <= x < cur.end),
            decreases n - j,
        {
            let vj = v[j];
            proof {
                assert(iv_le(v@[i as int], v@[j as int]));
                assert forall|x: int| #[trigger] covers(v@.subrange(i as int, j + 1 as int), x) == (cur.begin <= x < (if vj.end > cur.end { vj.end } else { cur.end })) by {
                    assert(v@.subrange(i as int, j + 1 as int) =~= v@.subrange(i as int, j as int).push(vj));
                    lemma_covers_push(v@.subrange(i as int, j as int), vj, x);
                }
            }
            if vj.end > cur.end {
                cur.end = vj.end;
            }
            j += 1;
        }
        let ghost old_out = out@;
        proof {
            lemma_total_len_push(old_out, cur);
        }
        count = count + (cur.end - cur.begin);
        out.push(cur);
        proof {
            assert forall|a: int, b: int| 0 <= a < b < out@.len() implies #[trigger] out@[a].end < #[trigger] out@[b].begin by {
                if b == out@.len() - 1 && old_out.len() > 0 {
                    let l = old_out.len() - 1;
                    if a < l {
                        assert(old_out[a].end < old_out[l].begin);
                        assert(old_out[l].begin < old_out[l].end);
                    }
                    assert(old_out.last() == old_out[l]);
                } else if b < out@.len() - 1 {
                    assert(out@[a] == old_out[a] && out@[b] == old_out[b]);
                }
            }
            assert forall|x: int| #[trigger] covers(out@, x) == covers(v@.subrange(0, j as int), x) by {
                lemma_covers_push(old_out, cur, x);
                lemma_covers_split(v@, i as int, j as int, x);
            }
            assert forall|m: int| 0 <= m < j implies #[trigger] v@[m].end <= out@.last().end by {
                if m < i {
                    assert(v@[m].end <= old_out.last().end);
                }
            }
        }
        i = j;
    }
    assert(v@.subrange(0, n as int) =~= v@);
    (out, count)
}

proof fn lemma_find_in(o: Seq<IntInterval>, s: Seq<IntInterval>, i: int) -> (k: int)
    requires
        same_elements(s, o),
        0 <= i < s.len(),
    ensures
        0 <= k < o.len() && o[k] == s[i],
{
    reveal(same_elements);
    choose|k: int| 0 <= k < o.len() && #[trigger] o[k] == #[trigger] s[i]
}

proof fn lemma_find_back(o: Seq<IntInterval>, s: Seq<IntInterval>, m: int) -> (j: int)
    requires
        same_elements(s, o),
        0 <= m < o.len(),
    ensures
        0 <= j < s.len() && s[j] == o[m],
{
    reveal(same_elements);
    choose|j: int| 0 <= j < s.len() && #[trigger] s[j] == #[trigger] o[m]
}

proof fn lemma_empty_covered_same_elements(o: Seq<IntInterval>, s: Seq<IntInterval>)
    requires
        empty_intervals_covered(o),
        same_elements(s, o),
    ensures
        empty_intervals_covered(s),
{
    assert forall|i: int|
        0 <= i < s.len() && #[trigger] s[i].begin >= s[i].end implies exists|j: int|
            0 <= j < s.len() && #[trigger] s[j].begin < s[j].end && s[j].begin <= s[i].begin <= s[j].end by {
        let k = lemma_find_in(o, s, i);
        assert(o[k].begin >= o[k].end);
        let m = choose|m: int| 0 <= m < o.len() && #[trigger] o[m].begin < o[m].end && o[m].begin <= o[k].begin <= o[m].end;
        let j = lemma_find_back(o, s, m);
        assert(s[j].begin < s[j].end);
    }
}

/// Stores intervals in a vector. In addition, keeps the count of points in
/// all intervals.
#[derive(Clone, PartialEq, Eq, Debug, Default)]
pub struct VectorIntervalStore {
    pub intervals: Vec<IntInterval>,
    pub count: Option<usize>,
}

impl VectorIntervalStore {
    pub fn new() -> (r: Self)
        ensures
            r.intervals@.len() == 0,
            r.count is None,
    {
        VectorIntervalStore { intervals: Vec::new(), count: None }
    }

    pub open spec fn ivs(&self) -> Seq<IntInterval> {
        self.intervals@
    }

    pub fn len(&self) -> (n: usize)
        ensures
            n == self.intervals@.len(),
    {
        self.intervals.len()
    }

    pub fn is_empty(&self) -> (b: bool)
        ensures
            b == (self.intervals@.len() == 0),
    {
        self.intervals.len() == 0
    }

    pub fn push(&mut self, interval: IntInterval)
        ensures
            final(self).intervals@ == old(self).intervals@.push(interval),
            final(self).count == old(self).count,
    {
        self.intervals.push(interval)
    }

    pub fn clear(&mut self)
        ensures
            final(self).intervals@.len() == 0,
            final(self).count is None,
    {
        self.intervals.clear();
        self.count = None;
    }

    pub fn count(&self) -> (r: Option<usize>)
        ensures
            r == self.count,
    {
        self.count
    }

    pub fn set_count(&mut self, count: usize)
        ensures
            final(self).count == Some(count),
            final(self).intervals@ == old(self).intervals@,
    {
        self.count = Some(count);
    }

    pub fn iter(&self) -> (r: &[IntInterval])
        ensures
            r@ == self.intervals@,
    {
        self.intervals.as_slice()
    }

    pub fn into_iter(self) -> (r: Vec<IntInterval>)
        ensures
            r@ == self.intervals@,
    {
        self.intervals
    }
}

/// A set of points given as a list of intervals.
#[derive(Clone, PartialEq, Eq, Debug, Default)]
pub struct IntervalSet {
    pub intervals: VectorIntervalStore,
}

impl IntervalSet {
    /// The intervals of the set, in stored order.
    pub open spec fn ivs(&self) -> Seq<IntInterval> {
        self.intervals.intervals@
    }

    /// The stored intervals are normalized.
    pub open spec fn is_normalized(&self) -> bool {
        ivs_normalized(self.ivs())
    }

    /// The point `v` belongs to the set.
    pub open spec fn contains_point(&self, v: int) -> bool {
        covers(self.ivs(), v)
    }

    pub fn new() -> (r: Self)
        ensures
            r.ivs().len() == 0,
            r.intervals.count is None,
    {
        IntervalSet { intervals: VectorIntervalStore::new() }
    }

    pub fn len(&self) -> (n: usize)
        ensures
            n == self.ivs().len(),
    {
        self.intervals.len()
    }

    pub fn is_empty(&self) -> (b: bool)
        ensures
            b == (self.ivs().len() == 0),
    {
        self.intervals.is_empty()
    }

    pub fn push(&mut self, interval: IntInterval)
        ensures
            final(self).ivs() == old(self).ivs().push(interval),
            final(self).intervals.count == old(self).intervals.count,
    {
        self.intervals.push(interval)
    }

    /// Number of points in the intervals (meaningful once normalized).
    pub fn count(&self) -> (r: Option<usize>)
        ensures
            r == self.intervals.count,
    {
        self.intervals.count()
    }

    pub fn clear(&mut self)
        ensures
            final(self).ivs().len() == 0,
            final(self).intervals.count is None,
    {
        self.intervals.clear()
    }

    pub fn iter(&self) -> (r: &[IntInterval])
        ensures
            r@ == self.ivs(),
    {
        self.intervals.iter()
    }

    /// Adds an interval set to the set. The result may not be normalized.
    pub fn union(&mut self, iset: Self)
        ensures
            final(self).ivs() == old(self).ivs() + iset.ivs(),
            final(self).intervals.count == old(self).intervals.count,
    {
        let mut other = iset.intervals.intervals;
        self.intervals.intervals.append(&mut other);
    }

    /// A copy of the set.
    pub fn clone_set(&self) -> (r: Self)
        ensures
            r.ivs() == self.ivs(),
            r.intervals.count == self.intervals.count,
    {
        let v = &self.intervals.intervals;
        let mut out: Vec<IntInterval> = Vec::new();
        let mut i: usize = 0;
        while i < v.len()
            invariant
                i <= v@.len(),
                out@ == v@.subrange(0, i as int),
            decreases v@.len() - i,
        {
            out.push(v[i]);
            i += 1;
            assert(out@ =~= v@.subrange(0, i as int));
        }
        assert(out@ =~= v@);
        IntervalSet { intervals: VectorIntervalStore { intervals: out, count: self.intervals.count } }
    }

    /// Whether the set holds exactly one point in one interval.
    pub fn singleton(&self) -> (b: bool)
        ensures
            b == (self.ivs().len() == 1 && self.ivs()[0].begin + 1 == self.ivs()[0].end),
    {
        if self.intervals.intervals.len() != 1 {
            return false;
        }
        let elt = self.intervals.intervals[0];
        elt.end > elt.begin && elt.end - elt.begin == 1
    }

    /// Index of the first stored interval that does not come before `x`.
    fn lower_bound(&self, x: IntInterval) -> (k: usize)
        requires
            ivs_sorted(self.ivs()),
        ensures
            k <= self.ivs().len(),
            forall|i: int| 0 <= i < k ==> iv_lt(#[trigger] self.ivs()[i], x),
            forall|i: int| k <= i < self.ivs().len() ==> !iv_lt(#[trigger] self.ivs()[i], x),
    {
        let v = &self.intervals.intervals;
        let mut low: usize = 0;
        let mut high: usize = v.len();
        while low < high
            invariant
                low <= high <= v@.len(),
                v@ == self.ivs(),
                ivs_sorted(v@),
                forall|i: int| 0 <= i < low ==> iv_lt(#[trigger] v@[i], x),
                forall|i: int| high <= i < v@.len() ==> !iv_lt(#[trigger] v@[i], x),
            decreases high - low,
        {
            let mid = low + (high - low) / 2;
            if v[mid].precedes(&x) {
                proof {
                    assert forall|i: int| 0 <= i < mid + 1 implies iv_lt(#[trigger] v@[i], x) by {
                        assert(iv_le(v@[i], v@[mid as int]));
                    }
                }
                low = mid + 1;
            } else {
                proof {
                    assert forall|i: int| mid <= i < v@.len() implies !iv_lt(#[trigger] v@[i], x) by {
                        assert(iv_le(v@[mid as int], v@[i]));
                    }
                }
                high = mid;
            }
        }
        low
    }

    /// Whether `value` belongs to the set. Requires the intervals to be normalized.
    pub fn member(&self, value: usize) -> (b: bool)
        requires
            self.is_normalized(),
        ensures
            b == self.contains_point(value as int),
    {
        proof {
            assert forall|i: int, j: int| 0 <= i <= j < self.ivs().len() implies iv_le(#[trigger] self.ivs()[i], #[trigger] self.ivs()[j]) by {
                if i < j {
                    assert(self.ivs()[i].end < self.ivs()[j].begin);
                    assert(self.ivs()[i].begin < self.ivs()[i].end);
                }
            }
        }
        let interval = IntInterval::new(value, value);
        let lb = self.lower_bound(interval);
        proof {
            let s = self.ivs();
            if covers(s, value as int) {
                let i = choose|i: int| 0 <= i < s.len() && #[trigger] s[i].begin <= value < s[i].end;
                assert(iv_lt(s[i], interval));
                assert(i < lb);
                if i < lb - 1 {
                    assert(s[i].end < s[lb - 1].begin);
                    assert(iv_lt(s[lb - 1], interval));
                }
            }
            if lb > 0 && s[lb - 1].end > value {
                assert(iv_lt(s[lb - 1], interval));
                assert(s[lb - 1].begin <= value);
            }
        }
        if lb == 0 {
            return false;
        }
        self.intervals.intervals[lb - 1].end > value
    }

    /// Skips empty intervals, sorts, collapses overlapping and adjacent
    /// intervals, and sets the count.
    pub fn normalize(&mut self)
        ensures
            final(self).is_normalized(),
            forall|x: int| final(self).contains_point(x) == old(self).contains_point(x),
            final(self).intervals.count == Some(total_len(final(self).ivs()) as usize),
    {
        let v = &self.intervals.intervals;
        let mut kept: Vec<IntInterval> = Vec::new();
        let mut i: usize = 0;
        while i < v.len()
            invariant
                i <= v@.len(),
                v@ == self.ivs(),
                forall|k: int| 0 <= k < kept@.len() ==> #[trigger] kept@[k].begin < kept@[k].end,
                forall|x: int| #[trigger] covers(kept@, x) == covers(v@.subrange(0, i as int), x),
            decreases v@.len() - i,
        {
            let ghost before = kept@;
            let iv = v[i];
            if iv.begin < iv.end {
                kept.push(iv);
            }
            proof {
                let sub = v@.subrange(0, i + 1);
                assert forall|x: int| #[trigger] covers(kept@, x) == covers(sub, x) by {
                    if covers(kept@, x) {
                        let k = choose|k: int| 0 <= k < kept@.len() && #[trigger] kept@[k].begin <= x < kept@[k].end;
                        if k < before.len() {
                            assert(before[k] == kept@[k]);
                            assert(covers(before, x));
                            assert(covers(v@.subrange(0, i as int), x));
                            let j = choose|j: int| 0 <= j < i && #[trigger] v@.subrange(0, i as int)[j].begin <= x < v@.subrange(0, i as int)[j].end;
                            assert(sub[j] == v@.subrange(0, i as int)[j]);
                        } else {
                            assert(sub[i as int] == iv);
                        }
                    }
                    if covers(sub, x) {
                        let j = choose|j: int| 0 <= j < sub.len() && #[trigger] sub[j].begin <= x < sub[j].end;
                        if j < i {
                            assert(v@.subrange(0, i as int)[j] == sub[j]);
                            assert(covers(v@.subrange(0, i as int), x));
                            assert(covers(before, x));
                            let k = choose|k: int| 0 <= k < before.len() && #[trigger] before[k].begin <= x < before[k].end;
                            assert(kept@[k] == before[k]);
                        } else {
                            assert(sub[j] == iv);
                            assert(kept@[kept@.len() - 1] == iv);
                        }
                    }
                }
            }
            i += 1;
        }
        proof {
            assert(v@.subrange(0, i as int) =~= v@);
        }
        let sorted = sort_intervals(&kept);
        proof {
            assert(empty_intervals_covered(kept@));
            lemma_empty_covered_same_elements(kept@, sorted@);
        }
        let (merged, count) = merge_sorted(&sorted);
        proof {
            assert forall|x: int| #[trigger] covers(merged@, x) == covers(self.ivs(), x) by {
                lemma_covers_same_elements(sorted@, kept@, x);
            }
        }
        self.intervals.intervals = merged;
        self.intervals.count = Some(count);
    }
}

} // verus!
