//! Times on a chart's timeline. A time is carried as the IEEE 754 bit pattern of
//! a single-precision number (`u32`); it is ordered and compared as that number,
//! with both zeros equal. Sorting, deduplication, grouping of equal times and the
//! merging of hold intervals all work on these patterns.
use vstd::prelude::*;

verus! {

/// Bit pattern of the single-precision number `-1.0`, which marks an interval
/// whose end has not been seen yet.
pub const OPEN_END: u32 = 0xBF80_0000;

/// Whether a bit pattern is a NaN: all exponent bits set and a nonzero fraction.
pub open spec fn is_nan_bits(b: u32) -> bool {
    b % 0x8000_0000 > 0x7F80_0000
}

/// The position of a (non-NaN) bit pattern on the number line: the magnitude
/// bits, negated when the sign bit is set. Two patterns compare as their
/// numbers do exactly when their positions compare so; `+0.0` and `-0.0` share
/// position `0`.
pub open spec fn time_order(b: u32) -> int {
    if b < 0x8000_0000 {
        b as int
    } else {
        -((b - 0x8000_0000) as int)
    }
}

/// `a < b` for the numbers whose bit patterns are `a` and `b`.
pub fn time_lt(a: u32, b: u32) -> (r: bool)
    ensures
        r == (time_order(a) < time_order(b)),
{
    if a < 0x8000_0000 {
        if b < 0x8000_0000 {
            a < b
        } else {
            false
        }
    } else {
        if b < 0x8000_0000 {
            // a <= -0.0 and b >= +0.0: a < b unless both are zero
            !(a == 0x8000_0000 && b == 0)
        } else {
            b < a
        }
    }
}

/// `a == b` for the numbers whose bit patterns are `a` and `b`.
pub fn time_eq(a: u32, b: u32) -> (r: bool)
    ensures
        r == (time_order(a) == time_order(b)),
{
    !time_lt(a, b) && !time_lt(b, a)
}

/// No NaN among the times of `s`.
pub open spec fn no_nan_times<T>(s: Seq<(u32, T)>) -> bool {
    forall|i: int| 0 <= i < s.len() ==> !is_nan_bits(#[trigger] s[i].0)
}

/// Inserting `x` into `s` behind every element, counted from the end, whose
/// time is later than that of `x`: one step of a stable insertion sort.
pub open spec fn insert_by_time<T>(s: Seq<(u32, T)>, x: (u32, T)) -> Seq<(u32, T)>
    decreases s.len(),
{
    if s.len() == 0 {
        seq![x]
    } else if time_order(s.last().0) <= time_order(x.0) {
        s.push(x)
    } else {
        insert_by_time(s.drop_last(), x).push(s.last())
    }
}

/// `s` sorted by time, stably: elements of equal time keep their order.
pub open spec fn sort_by_time<T>(s: Seq<(u32, T)>) -> Seq<(u32, T)>
    decreases s.len(),
{
    if s.len() == 0 {
        s
    } else {
        insert_by_time(sort_by_time(s.drop_last()), s.last())
    }
}

/// Times are in non-decreasing order.
pub open spec fn sorted_by_time<T>(s: Seq<(u32, T)>) -> bool {
    forall|i: int, j: int| 0 <= i <= j < s.len() ==> time_order(#[trigger] s[i].0) <= time_order(#[trigger] s[j].0)
}

/// Index at which `insert_by_time` puts `x`: elements are skipped from the end
/// while their time is later than that of `x`.
pub open spec fn insert_pos<T>(s: Seq<(u32, T)>, x: (u32, T)) -> int
    decreases s.len(),
{
    if s.len() == 0 {
        0
    } else if time_order(s.last().0) <= time_order(x.0) {
        s.len() as int
    } else {
        insert_pos(s.drop_last(), x)
    }
}

proof fn lemma_insert_pos<T>(s: Seq<(u32, T)>, x: (u32, T))
    ensures
        0 <= insert_pos(s, x) <= s.len(),
        insert_by_time(s, x) == s.insert(insert_pos(s, x), x),
        forall|k: int| insert_pos(s, x) <= k < s.len() ==> time_order(x.0) < time_order(#[trigger] s[k].0),
        insert_pos(s, x) > 0 ==> time_order(s[insert_pos(s, x) - 1].0) <= time_order(x.0),
    decreases s.len(),
{
    if s.len() == 0 {
        assert(insert_by_time(s, x) =~= s.insert(0, x));
    } else if time_order(s.last().0) <= time_order(x.0) {
        assert(insert_by_time(s, x) =~= s.insert(s.len() as int, x));
    } else {
        let t = s.drop_last();
        lemma_insert_pos(t, x);
        let p = insert_pos(t, x);
        assert(insert_by_time(s, x) =~= s.insert(p, x));
        assert forall|k: int| p <= k < s.len() implies time_order(x.0) < time_order(#[trigger] s[k].0) by {
            if k < s.len() - 1 {
                assert(s[k] == t[k]);
            }
        }
        if p > 0 {
            assert(s[p - 1] == t[p - 1]);
        }
    }
}

/// Sorts by time, stably (insertion sort).
pub fn sort_by_time_exec<T: Copy>(v: &Vec<(u32, T)>) -> (r: Vec<(u32, T)>)
    ensures
        r@ == sort_by_time(v@),
{
    let mut r: Vec<(u32, T)> = Vec::new();
    let mut i: usize = 0;
    while i < v.len()
        invariant
            i <= v.len(),
            r@ == sort_by_time(v@.subrange(0, i as int)),
        decreases v.len() - i,
    {
        let x = v[i];
        proof {
            lemma_insert_pos(r@, x);
        }
        let mut j: usize = r.len();
        while j > 0 && time_lt(x.0, r[j - 1].0)
            invariant
                j <= r.len(),
                insert_pos(r@, x) <= j,
                forall|k: int| j <= k < r.len() ==> time_order(x.0) < time_order(#[trigger] r@[k].0),
            decreases j,
        {
            proof {
                lemma_insert_pos(r@, x);
            }
            j = j - 1;
        }
        proof {
            lemma_insert_pos(r@, x);
            let p = insert_pos(r@, x);
            if j > p {
                // r[j - 1] is not later than x, yet lies at or behind p
                assert(time_order(x.0) < time_order(r@[j - 1].0));
            }
            assert(v@.subrange(0, i + 1).drop_last() =~= v@.subrange(0, i as int));
        }
        r.insert(j, x);
        i = i + 1;
    }
    assert(v@.subrange(0, v.len() as int) =~= v@);
    r
}

/// Inserting into a sorted sequence keeps it sorted.
proof fn lemma_insert_sorted<T>(s: Seq<(u32, T)>, x: (u32, T))
    requires
        sorted_by_time(s),
    ensures
        sorted_by_time(insert_by_time(s, x)),
        insert_by_time(s, x).len() == s.len() + 1,
{
    lemma_insert_pos(s, x);
    let p = insert_pos(s, x);
    let r = s.insert(p, x);
    assert forall|i: int, j: int| 0 <= i <= j < r.len() implies time_order(#[trigger] r[i].0) <= time_order(
        #[trigger] r[j].0,
    ) by {
        if i < p && j < p {
            assert(r[i] == s[i] && r[j] == s[j]);
        } else if i < p && j == p {
            assert(r[i] == s[i]);
            assert(time_order(s[i].0) <= time_order(s[p - 1].0));
        } else if i < p && j > p {
            assert(r[i] == s[i] && r[j] == s[j - 1]);
        } else if i == p && j > p {
            assert(r[j] == s[j - 1]);
        } else if i > p {
            assert(r[i] == s[i - 1] && r[j] == s[j - 1]);
        }
    }
}

/// A sort by time gives times in non-decreasing order and the same number of elements.
pub proof fn lemma_sort_by_time_sorted<T>(s: Seq<(u32, T)>)
    ensures
        sorted_by_time(sort_by_time(s)),
        sort_by_time(s).len() == s.len(),
    decreases s.len(),
{
    if s.len() > 0 {
        lemma_sort_by_time_sorted(s.drop_last());
        lemma_insert_sorted(sort_by_time(s.drop_last()), s.last());
    }
}

/// Sorting a sequence that is already in time order leaves it unchanged.
pub proof fn lemma_sort_of_sorted<T>(s: Seq<(u32, T)>)
    requires
        sorted_by_time(s),
    ensures
        sort_by_time(s) == s,
    decreases s.len(),
{
    if s.len() > 0 {
        let t = s.drop_last();
        assert(sorted_by_time(t)) by {
            assert forall|i: int, j: int| 0 <= i <= j < t.len() implies time_order(#[trigger] t[i].0) <= time_order(
                #[trigger] t[j].0,
            ) by {
                assert(t[i] == s[i] && t[j] == s[j]);
            }
        }
        lemma_sort_of_sorted(t);
        if t.len() > 0 {
            assert(t.last() == s[s.len() - 2]);
            assert(time_order(s[s.len() - 2].0) <= time_order(s[s.len() - 1].0));
        }
        assert(t.push(s.last()) =~= s);
    }
}

/// `s` with each element dropped whose time equals that of the element kept
/// before it.
pub open spec fn dedup_times<T>(s: Seq<(u32, T)>) -> Seq<(u32, T)>
    decreases s.len(),
{
    if s.len() == 0 {
        s
    } else {
        let d = dedup_times(s.drop_last());
        if d.len() > 0 && time_order(d.last().0) == time_order(s.last().0) {
            d
        } else {
            d.push(s.last())
        }
    }
}

/// Drops each element whose time equals that of the element kept before it.
pub fn dedup_times_exec<T: Copy>(v: &Vec<(u32, T)>) -> (r: Vec<(u32, T)>)
    ensures
        r@ == dedup_times(v@),
{
    let mut r: Vec<(u32, T)> = Vec::new();
    let mut i: usize = 0;
    while i < v.len()
        invariant
            i <= v.len(),
            r@ == dedup_times(v@.subrange(0, i as int)),
        decreases v.len() - i,
    {
        let x = v[i];
        proof {
            assert(v@.subrange(0, i + 1).drop_last() =~= v@.subrange(0, i as int));
        }
        let n = r.len();
        if n == 0 || !time_eq(r[n - 1].0, x.0) {
            r.push(x);
        }
        i = i + 1;
    }
    assert(v@.subrange(0, v.len() as int) =~= v@);
    r
}

/// Deduplicating a sorted sequence leaves strictly increasing times, every
/// one of which occurs in the input.
pub proof fn lemma_dedup_sorted<T>(s: Seq<(u32, T)>)
    requires
        sorted_by_time(s),
    ensures
        forall|i: int, j: int|
            0 <= i < j < dedup_times(s).len() ==> time_order(#[trigger] dedup_times(s)[i].0) < time_order(
                #[trigger] dedup_times(s)[j].0,
            ),
        forall|i: int| 0 <= i < dedup_times(s).len() ==> s.contains(#[trigger] dedup_times(s)[i]),
        s.len() > 0 ==> dedup_times(s).len() > 0,
        dedup_times(s).len() > 0 ==> time_order(dedup_times(s).last().0) == time_order(s.last().0),
    decreases s.len(),
{
    if s.len() > 0 {
        let t = s.drop_last();
        assert(sorted_by_time(t));
        lemma_dedup_sorted(t);
        let d = dedup_times(t);
        if t.len() > 0 {
            assert(time_order(t.last().0) <= time_order(s.last().0));
        }
        assert forall|i: int| 0 <= i < dedup_times(s).len() implies s.contains(#[trigger] dedup_times(s)[i]) by {
            if i < d.len() {
                assert(t.contains(d[i]));
                let k = choose|k: int| 0 <= k < t.len() && t[k] == d[i];
                assert(s[k] == d[i]);
            } else {
                assert(s[s.len() - 1] == s.last());
            }
        }
    }
}

/// Consecutive elements of `s` with equal times, merged: each run gives the
/// time of its first element and the sum of its changes.
pub open spec fn group_runs(s: Seq<(u32, i32)>) -> Seq<(u32, i64)>
    decreases s.len(),
{
    if s.len() == 0 {
        Seq::empty()
    } else {
        let g = group_runs(s.drop_last());
        if s.len() >= 2 && time_order(s[s.len() - 2].0) == time_order(s.last().0) {
            g.update(g.len() - 1, (g.last().0, (g.last().1 + s.last().1) as i64))
        } else {
            g.push((s.last().0, s.last().1 as i64))
        }
    }
}

proof fn lemma_group_runs_len(s: Seq<(u32, i32)>)
    ensures
        s.len() > 0 ==> group_runs(s).len() > 0,
        group_runs(s).len() <= s.len(),
    decreases s.len(),
{
    if s.len() > 0 {
        lemma_group_runs_len(s.drop_last());
    }
}

/// Groups runs of equal times, summing their changes.
pub fn group_runs_exec(v: &Vec<(u32, i32)>) -> (r: Vec<(u32, i64)>)
    requires
        v.len() <= i32::MAX,
        forall|i: int| 0 <= i < v.len() ==> -1 <= #[trigger] v@[i].1 <= 1,
    ensures
        r@ == group_runs(v@),
        forall|k: int| 0 <= k < r.len() ==> -(v.len() as int) <= #[trigger] r@[k].1 <= v.len(),
{
    let mut r: Vec<(u32, i64)> = Vec::new();
    let mut i: usize = 0;
    while i < v.len()
        invariant
            i <= v.len(),
            v.len() <= i32::MAX,
            forall|i: int| 0 <= i < v.len() ==> -1 <= #[trigger] v@[i].1 <= 1,
            r@ == group_runs(v@.subrange(0, i as int)),
            forall|k: int| 0 <= k < r.len() ==> -(i as int) <= #[trigger] r@[k].1 <= i,
        decreases v.len() - i,
    {
        let x = v[i];
        let ghost s = v@.subrange(0, i + 1);
        proof {
            assert(s.drop_last() =~= v@.subrange(0, i as int));
            lemma_group_runs_len(v@.subrange(0, i as int));
        }
        if i > 0 && time_eq(v[i - 1].0, x.0) {
            let n = r.len();
            let last = r[n - 1];
            r.set(n - 1, (last.0, last.1 + x.1 as i64));
        } else {
            r.push((x.0, x.1 as i64));
        }
        i = i + 1;
        assert(r@ =~= group_runs(v@.subrange(0, i as int)));
    }
    assert(v@.subrange(0, v.len() as int) =~= v@);
    r
}

/// State of the sweep over grouped hold changes: the number of holds open and
/// the merged intervals so far.
pub open spec fn sweep_step(state: Option<(int, Seq<(u32, u32)>)>, group: (u32, i64)) -> Option<
    (int, Seq<(u32, u32)>),
> {
    match state {
        None => None,
        Some((count, spans)) => {
            let (time, change) = group;
            if change == 0 {
                Some((count, spans))
            } else {
                let c = count + change;
                let s = if spans.len() == 0 {
                    spans.push((time, OPEN_END))
                } else if c == 0 && change < 0 {
                    spans.update(spans.len() - 1, (spans.last().0, time))
                } else if c == 1 && change > 0 {
                    spans.push((time, OPEN_END))
                } else {
                    spans
                };
                if c < 0 {
                    None
                } else {
                    Some((c, s))
                }
            }
        },
    }
}

/// The sweep over a sequence of groups; `None` when the count of open holds
/// ever drops below zero.
pub open spec fn sweep(groups: Seq<(u32, i64)>) -> Option<(int, Seq<(u32, u32)>)>
    decreases groups.len(),
{
    if groups.len() == 0 {
        Some((0, Seq::empty()))
    } else {
        sweep_step(sweep(groups.drop_last()), groups.last())
    }
}

/// The intervals that one clip's hold changes (`+1` at each start, `-1` at
/// each end, in the order seen) merge into: runs of equal times are summed,
/// sorted by time and swept. `None` when the number of open holds drops below
/// zero, does not end at zero, or the last interval stays open.
pub open spec fn merged_spans(changes: Seq<(u32, i32)>) -> Option<Seq<(u32, u32)>> {
    match sweep(sort_by_time(group_runs(changes))) {
        None => None,
        Some((count, spans)) => if count == 0 && spans.len() > 0 && time_order(spans.last().1) != time_order(
            OPEN_END,
        ) {
            Some(spans)
        } else {
            None
        },
    }
}

/// Whether every run of equal times in `changes` sums to zero: then the sweep
/// opens no interval at all.
pub open spec fn all_runs_cancel(changes: Seq<(u32, i32)>) -> bool {
    forall|k: int| 0 <= k < group_runs(changes).len() ==> #[trigger] group_runs(changes)[k].1 == 0
}

proof fn lemma_sweep_prefix(groups: Seq<(u32, i64)>, i: int)
    requires
        0 <= i < groups.len(),
    ensures
        groups.subrange(0, i + 1).drop_last() == groups.subrange(0, i),
        groups.subrange(0, i + 1).last() == groups[i],
{
    assert(groups.subrange(0, i + 1).drop_last() =~= groups.subrange(0, i));
}

proof fn lemma_sweep_none_stays(groups: Seq<(u32, i64)>, i: int)
    requires
        0 <= i <= groups.len(),
        sweep(groups.subrange(0, i)) is None,
    ensures
        sweep(groups) is None,
    decreases groups.len() - i,
{
    if i < groups.len() {
        lemma_sweep_prefix(groups, i);
        lemma_sweep_none_stays(groups, i + 1);
    } else {
        assert(groups.subrange(0, i) =~= groups);
    }
}

/// Every element of a sort by time is an element of the input.
pub proof fn lemma_sort_keeps_elements<T>(s: Seq<(u32, T)>)
    ensures
        sort_by_time(s).len() == s.len(),
        forall|k: int| 0 <= k < s.len() ==> s.contains(#[trigger] sort_by_time(s)[k]),
    decreases s.len(),
{
    if s.len() > 0 {
        let t = s.drop_last();
        lemma_sort_keeps_elements(t);
        let st = sort_by_time(t);
        lemma_insert_pos(st, s.last());
        let p = insert_pos(st, s.last());
        let r = st.insert(p, s.last());
        assert forall|k: int| 0 <= k < s.len() implies s.contains(#[trigger] sort_by_time(s)[k]) by {
            if k == p {
                assert(s[s.len() - 1] == r[k]);
            } else {
                let k2 = if k < p { k } else { k - 1 };
                assert(r[k] == st[k2]);
                assert(t.contains(st[k2]));
                let w = choose|w: int| 0 <= w < t.len() && t[w] == st[k2];
                assert(s[w] == t[w]);
            }
        }
    }
}

/// Merges one clip's hold changes into intervals: runs of equal times are
/// summed, the runs are sorted by time, and a sweep keeps the number of open
/// holds; an interval opens when the count leaves zero and closes when it
/// returns to zero. `None` when the count drops below zero, does not end at
/// zero, or the last interval is left open.
pub fn merge_spans_exec(changes: &Vec<(u32, i32)>) -> (r: Option<Vec<(u32, u32)>>)
    requires
        changes.len() <= i32::MAX,
        forall|i: int| 0 <= i < changes.len() ==> -1 <= #[trigger] changes@[i].1 <= 1,
        changes.len() >= 2 ==> no_nan_times(changes@),
        !all_runs_cancel(changes@),
    ensures
        match r {
            Some(v) => merged_spans(changes@) == Some(v@),
            None => merged_spans(changes@) is None,
        },
{
    let groups = group_runs_exec(changes);
    let ghost g = group_runs(changes@);
    let sorted = sort_by_time_exec(&groups);
    let ghost sg = sort_by_time(g);
    let n = sorted.len();
    let bound: i64 = changes.len() as i64;
    proof {
        lemma_sort_by_time_sorted(g);
        lemma_sort_keeps_elements(g);
        assert forall|k: int| 0 <= k < n implies -(bound as int) <= #[trigger] sorted@[k].1 <= bound by {
            assert(g.contains(sg[k]));
            let w = choose|w: int| 0 <= w < g.len() && g[w] == sg[k];
            assert(-(bound as int) <= groups@[w].1 <= bound);
        }
    }
    proof {
        lemma_group_runs_len(changes@);
    }
    let mut count: i64 = 0;
    let mut spans: Vec<(u32, u32)> = Vec::new();
    let mut i: usize = 0;
    while i < n
        invariant
            i <= n,
            n == sorted.len(),
            sorted@ == sg,
            sg == sort_by_time(group_runs(changes@)),
            0 <= bound <= i32::MAX,
            forall|k: int| 0 <= k < n ==> -(bound as int) <= #[trigger] sorted@[k].1 <= bound,
            -((i as int) * bound) <= count <= (i as int) * bound,
            n <= bound,
            i <= bound,
            sweep(sg.subrange(0, i as int)) == Some((count as int, spans@)),
        decreases n - i,
    {
        let (time, change) = sorted[i];
        proof {
            lemma_sweep_prefix(sg, i as int);
            assert(((i + 1) as int) * bound == (i as int) * bound + bound) by (nonlinear_arith);
            assert((i as int) * bound <= (i32::MAX as int) * (i32::MAX as int)) by (nonlinear_arith)
                requires
                    0 <= i <= bound <= i32::MAX,
            ;
        }
        if change != 0 {
            let c = count + change;
            if spans.len() == 0 {
                spans.push((time, OPEN_END));
            } else if c == 0 && change < 0 {
                let last = spans[spans.len() - 1];
                let m = spans.len() - 1;
                spans.set(m, (last.0, time));
            } else if c == 1 && change > 0 {
                spans.push((time, OPEN_END));
            }
            if c < 0 {
                proof {
                    assert(sweep(sg.subrange(0, (i + 1) as int)) is None);
                    lemma_sweep_none_stays(sg, (i + 1) as int);
                    assert(sg.subrange(0, n as int) =~= sg);

                }
                return None;
            }
            count = c;
        }
        i = i + 1;
    }
    proof {
        assert(sg.subrange(0, n as int) =~= sg);
    }
    if count == 0 && spans.len() > 0 && !time_eq(spans[spans.len() - 1].1, OPEN_END) {
        Some(spans)
    } else {
        None
    }
}

/// The intervals so far are in order and do not overlap, the last one starts
/// no later than `max`, and, when no hold is open, the last one is closed by
/// `max`.
pub open spec fn spans_ordered(s: Seq<(u32, u32)>, count: int, max: int) -> bool {
    &&& forall|i: int|
        0 <= i < s.len() - 1 ==> time_order(#[trigger] s[i].0) <= time_order(s[i].1) <= time_order(s[i + 1].0)
    &&& s.len() > 0 ==> time_order(s.last().0) <= max
    &&& count == 0 && s.len() > 0 ==> time_order(s.last().0) <= time_order(s.last().1) <= max
    &&& count >= 0
    &&& s.len() == 0 ==> count == 0
}

proof fn lemma_sweep_step_ordered(s: Seq<(u32, u32)>, c: int, m: int, x: (u32, i64))
    requires
        spans_ordered(s, c, m),
        m <= time_order(x.0),
        sweep_step(Some((c, s)), x) is Some,
    ensures
        spans_ordered(sweep_step(Some((c, s)), x).unwrap().1, sweep_step(Some((c, s)), x).unwrap().0, time_order(x.0)),
{
    let (c2, s2) = sweep_step(Some((c, s)), x).unwrap();
    if x.1 != 0 {
        let cc = c + x.1;
        if s.len() == 0 {
            assert(s2 =~= seq![(x.0, OPEN_END)]);
        } else if cc == 0 && x.1 < 0 {
            assert(s2 == s.update(s.len() - 1, (s.last().0, x.0)));
            assert forall|i: int| 0 <= i < s2.len() - 1 implies time_order(#[trigger] s2[i].0) <= time_order(
                s2[i].1,
            ) <= time_order(s2[i + 1].0) by {
                assert(s2[i] == s[i]);
                if i + 1 < s.len() - 1 {
                    assert(s2[i + 1] == s[i + 1]);
                }
            }
        } else if cc == 1 && x.1 > 0 {
            assert(s2 == s.push((x.0, OPEN_END)));
            assert forall|i: int| 0 <= i < s2.len() - 1 implies time_order(#[trigger] s2[i].0) <= time_order(
                s2[i].1,
            ) <= time_order(s2[i + 1].0) by {
                assert(s2[i] == s[i]);
                if i < s.len() - 1 {
                    assert(s2[i + 1] == s[i + 1]);
                }
            }
        } else {
            assert(s2 == s);
        }
    }
}

proof fn lemma_sweep_ordered(groups: Seq<(u32, i64)>)
    requires
        sorted_by_time(groups),
        groups.len() > 0,
        sweep(groups) is Some,
    ensures
        spans_ordered(sweep(groups).unwrap().1, sweep(groups).unwrap().0, time_order(groups.last().0)),
    decreases groups.len(),
{
    let g = groups.drop_last();
    let x = groups.last();
    assert(sorted_by_time(g)) by {
        assert forall|i: int, j: int| 0 <= i <= j < g.len() implies time_order(#[trigger] g[i].0) <= time_order(
            #[trigger] g[j].0,
        ) by {
            assert(g[i] == groups[i] && g[j] == groups[j]);
        }
    }
    assert(sweep(groups) == sweep_step(sweep(g), x));
    let (c, s) = sweep(g).unwrap();
    if g.len() > 0 {
        lemma_sweep_ordered(g);
        assert(groups[groups.len() - 2] == g.last());
        assert(time_order(groups[groups.len() - 2].0) <= time_order(groups[groups.len() - 1].0));
        lemma_sweep_step_ordered(s, c, time_order(g.last().0), x);
    } else {
        lemma_sweep_step_ordered(s, c, time_order(x.0), x);
    }
}

/// The intervals that merging one clip's holds produces are in time order and
/// do not overlap: each starts no later than it ends, and ends no later than
/// the next one starts.
pub proof fn lemma_merged_spans_ordered(changes: Seq<(u32, i32)>)
    requires
        merged_spans(changes) is Some,
    ensures
        ({
            let s = merged_spans(changes).unwrap();
            forall|i: int|
                0 <= i < s.len() ==> time_order(#[trigger] s[i].0) <= time_order(s[i].1) && (i + 1 < s.len()
                    ==> time_order(s[i].1) <= time_order(s[i + 1].0))
        }),
{
    let sg = sort_by_time(group_runs(changes));
    lemma_sort_by_time_sorted(group_runs(changes));
    let (c, s) = sweep(sg).unwrap();
    assert(s.len() > 0);
    if sg.len() == 0 {
        assert(s.len() == 0);
    } else {
        lemma_sweep_ordered(sg);
    }
}

/// Every element of the input occurs in its sort by time.
pub proof fn lemma_sort_contains_input<T>(s: Seq<(u32, T)>)
    ensures
        forall|k: int| 0 <= k < s.len() ==> sort_by_time(s).contains(#[trigger] s[k]),
    decreases s.len(),
{
    if s.len() > 0 {
        let t = s.drop_last();
        lemma_sort_contains_input(t);
        let st = sort_by_time(t);
        lemma_insert_pos(st, s.last());
        let p = insert_pos(st, s.last());
        let r = st.insert(p, s.last());
        assert forall|k: int| 0 <= k < s.len() implies sort_by_time(s).contains(#[trigger] s[k]) by {
            if k == s.len() - 1 {
                assert(r[p] == s[k]);
            } else {
                assert(s[k] == t[k]);
                assert(st.contains(t[k]));
                let w = choose|w: int| 0 <= w < st.len() && st[w] == t[k];
                if w < p {
                    assert(r[w] == st[w]);
                } else {
                    assert(r[w + 1] == st[w]);
                }
            }
        }
    }
}

/// Every element of `s` has an element of the same time in `dedup_times(s)`.
pub proof fn lemma_dedup_covers<T>(s: Seq<(u32, T)>)
    ensures
        forall|k: int|
            0 <= k < s.len() ==> exists|j: int|
                0 <= j < dedup_times(s).len() && time_order(#[trigger] dedup_times(s)[j].0) == time_order(
                    (#[trigger] s[k]).0,
                ),
    decreases s.len(),
{
    if s.len() > 0 {
        let t = s.drop_last();
        lemma_dedup_covers(t);
        let d = dedup_times(t);
        let r = dedup_times(s);
        let skip = d.len() > 0 && time_order(d.last().0) == time_order(s.last().0);
        if skip {
            assert(r == d);
        } else {
            assert(r == d.push(s.last()));
        }
        assert forall|k: int| 0 <= k < s.len() implies exists|j: int|
            0 <= j < r.len() && time_order(#[trigger] r[j].0) == time_order((#[trigger] s[k]).0) by {
            if k == s.len() - 1 {
                if skip {
                    let j = d.len() - 1;
                    assert(r[j] == d.last());
                    assert(time_order(r[j].0) == time_order(s[k].0));
                } else {
                    let j = r.len() - 1;
                    assert(r[j] == s.last());
                    assert(time_order(r[j].0) == time_order(s[k].0));
                }
            } else {
                assert(s[k] == t[k]);
                assert(exists|j: int|
                    0 <= j < d.len() && time_order(#[trigger] d[j].0) == time_order((#[trigger] t[k]).0));
                let j = choose|j: int| 0 <= j < d.len() && time_order(#[trigger] d[j].0) == time_order(t[k].0);
                assert(r[j] == d[j]);
                assert(time_order(r[j].0) == time_order(s[k].0));
            }
        }
    }
}

} // verus!
