//! Reduction of per-stream cumulative byte counters: interpolation onto a
//! uniform time grid, summation of streams, and rates between grid points.
//! Interpolated byte counts are rounded down to whole bytes.
use vstd::prelude::*;
use vstd::arithmetic::div_mod::*;
use crate::model::{StreamSample, samples_ordered};

verus! {

/// `i` is where `p` splits the samples: every earlier sample is before `p`,
/// every later one at or after it.
pub open spec fn is_split(s: Seq<StreamSample>, p: int, i: int) -> bool {
    &&& 0 <= i <= s.len()
    &&& forall|j: int| 0 <= j < i ==> (#[trigger] s[j]).0 < p
    &&& forall|j: int| i <= j < s.len() ==> (#[trigger] s[j]).0 >= p
}

/// The number of samples taken before `p`.
pub open spec fn split_index(s: Seq<StreamSample>, p: int) -> int {
    choose|i: int| is_split(s, p, i)
}

/// The straight line through `a` and `b`, at `p`, rounded down; the right
/// sample's value where both share a timestamp.
pub open spec fn lerp(a: StreamSample, b: StreamSample, p: int) -> int {
    if b.0 == a.0 {
        b.1 as int
    } else {
        a.1 + (b.1 - a.1) * (p - a.0) / (b.0 - a.0)
    }
}

/// The byte count of a stream at time `p`: the first value before the first
/// sample, the last value after the last one, and the line between the two
/// samples around `p` otherwise.
pub open spec fn value_at(s: Seq<StreamSample>, p: int) -> int {
    let i = split_index(s, p);
    if i >= s.len() {
        s.last().1 as int
    } else if s[i].0 == p || i == 0 {
        s[i].1 as int
    } else {
        lerp(s[i - 1], s[i], p)
    }
}

/// The grid's first point, in multiples of the interval: the first sample's
/// time rounded down.
pub open spec fn grid_first(s: Seq<StreamSample>, iv: int) -> int {
    s[0].0 as int / iv
}

/// The grid's last point, in multiples of the interval: the last sample's
/// time rounded up.
pub open spec fn grid_last(s: Seq<StreamSample>, iv: int) -> int {
    (s.last().0 + iv - 1) / iv
}

/// A stream's byte count at every multiple of `iv` from its first sample's
/// time rounded down to its last sample's time rounded up.
pub open spec fn interpolated(s: Seq<StreamSample>, iv: int) -> Seq<StreamSample> {
    if s.len() == 0 {
        Seq::empty()
    } else {
        Seq::new(
            (grid_last(s, iv) - grid_first(s, iv) + 1) as nat,
            |k: int|
                (
                    ((grid_first(s, iv) + k) * iv) as u64,
                    value_at(s, (grid_first(s, iv) + k) * iv) as u64,
                ),
        )
    }
}

/// What interpolation needs of a stream: a positive interval, ordered
/// samples, and a grid that ends within `u64`.
pub open spec fn interpolable(s: Seq<StreamSample>, iv: int) -> bool {
    &&& iv > 0
    &&& samples_ordered(s)
    &&& s.len() > 0 ==> s.last().0 + iv - 1 <= u64::MAX
}

proof fn lemma_split_unique(s: Seq<StreamSample>, p: int, i: int, k: int)
    requires
        is_split(s, p, i),
        is_split(s, p, k),
    ensures
        i == k,
{
    if i < k {
        assert(s[i].0 < p);
    }
    if k < i {
        assert(s[k].0 < p);
    }
}

proof fn lemma_split_index(s: Seq<StreamSample>, p: int, i: int)
    requires
        is_split(s, p, i),
    ensures
        split_index(s, p) == i,
{
    assert(exists|x: int| is_split(s, p, x));
    lemma_split_unique(s, p, i, split_index(s, p));
}

proof fn lemma_grid(s: Seq<StreamSample>, iv: int)
    requires
        interpolable(s, iv),
        s.len() > 0,
    ensures
        grid_first(s, iv) * iv <= s[0].0,
        s.last().0 <= grid_last(s, iv) * iv <= s.last().0 + iv - 1,
        0 <= grid_first(s, iv) <= grid_last(s, iv),
        grid_last(s, iv) * iv <= u64::MAX,
{
    let x = s[0].0 as int;
    let y = s.last().0 + iv - 1;
    lemma_fundamental_div_mod(x, iv);
    lemma_mod_pos_bound(x, iv);
    lemma_fundamental_div_mod(y, iv);
    lemma_mod_pos_bound(y, iv);
    lemma_div_pos_is_pos(x, iv);
    let f = grid_first(s, iv);
    let l = grid_last(s, iv);
    if s.len() > 1 {
        assert(s[0].0 < s[s.len() - 1].0);
    }
    assert(f * iv == iv * f) by (nonlinear_arith);
    assert(l * iv == iv * l) by (nonlinear_arith);
    assert(f <= l) by (nonlinear_arith)
        requires
            f * iv <= l * iv,
            iv > 0,
    ;
}

/// The value where `p` splits the samples at `i`.
fn value_at_split(s: &[StreamSample], p: u64, i: usize) -> (r: u64)
    requires
        samples_ordered(s@),
        s@.len() > 0,
        is_split(s@, p as int, i as int),
    ensures
        r == value_at(s@, p as int),
        r <= s@.last().1,
{
    proof {
        lemma_split_index(s@, p as int, i as int);
    }
    let n = s.len();
    if i == n {
        s[n - 1].1
    } else if s[i].0 == p || i == 0 {
        assert(i == n - 1 || s@[i as int].1 <= s@[n - 1].1);
        s[i].1
    } else {
        let a = s[i - 1];
        let b = s[i];
        assert(a.0 < b.0 && a.1 <= b.1);
        let len = b.0 - a.0;
        let delta = (b.1 - a.1) as u128;
        let x = (p - a.0) as u128;
        proof {
            assert(delta * x <= 0xffff_ffff_ffff_ffffu128 * 0xffff_ffff_ffff_ffffu128)
                by (nonlinear_arith)
                requires
                    delta <= 0xffff_ffff_ffff_ffffu128,
                    x <= 0xffff_ffff_ffff_ffffu128,
            ;
            assert(delta * x <= delta * len) by (nonlinear_arith)
                requires
                    x <= len,
            ;
            lemma_div_is_ordered((delta * x) as int, (delta * len) as int, len as int);
            lemma_div_multiples_vanish(delta as int, len as int);
            assert((delta * len) as int / len as int == delta) by (nonlinear_arith)
                requires
                    (len * delta) as int / len as int == delta,
            ;
        }
        let q = delta * x / (len as u128);
        assert(i == n - 1 || s@[i as int].1 <= s@[n - 1].1);
        a.1 + q as u64
    }
}

/// The first index at or after `from` whose sample is not before `p`.
fn split_from(s: &[StreamSample], p: u64, from: usize) -> (r: usize)
    requires
        samples_ordered(s@),
        from <= s@.len(),
        forall|j: int| 0 <= j < from ==> (#[trigger] s@[j]).0 < p,
    ensures
        is_split(s@, p as int, r as int),
{
    let mut i = from;
    while i < s.len() && s[i].0 < p
        invariant
            from <= i <= s@.len(),
            forall|j: int| 0 <= j < i ==> (#[trigger] s@[j]).0 < p,
        decreases s@.len() - i,
    {
        i = i + 1;
    }
    if i < s.len() {
        assert forall|j: int| i <= j < s@.len() implies (#[trigger] s@[j]).0 >= p by {
            if j > i {
                assert(s@[i as int].0 < s@[j].0);
            }
        }
    }
    i
}

/// Resamples a stream onto the multiples of `interval` that cover it,
/// interpolating linearly between samples.
pub fn interpolate(input: &[StreamSample], interval: u64) -> (r: Vec<StreamSample>)
    requires
        interpolable(input@, interval as int),
    ensures
        r@ == interpolated(input@, interval as int),
        forall|k: int| 0 <= k < r@.len() ==> (#[trigger] r@[k]).1 <= input@.last().1,
{
    if input.len() == 0 {
        return Vec::new();
    }
    let ghost s = input@;
    let ghost iv = interval as int;
    proof {
        lemma_grid(s, iv);
    }
    let n = input.len();
    let first = input[0].0 / interval;
    let last = (input[n - 1].0 + (interval - 1)) / interval;
    let mut data: Vec<StreamSample> = Vec::new();
    let mut q: u64 = first;
    let mut i: usize = 0;
    loop
        invariant_except_break
            data@.len() == q - first,
        invariant
            s == input@,
            iv == interval as int,
            n == s.len(),
            n > 0,
            samples_ordered(s),
            first == grid_first(s, iv),
            last == grid_last(s, iv),
            last * iv <= u64::MAX,
            iv > 0,
            first <= q <= last,
            i <= n,
            forall|j: int| 0 <= j < i ==> (#[trigger] s[j]).0 < q * iv,
            forall|k: int| 0 <= k < data@.len() ==> #[trigger] data@[k] == interpolated(s, iv)[k],
            forall|k: int| 0 <= k < data@.len() ==> (#[trigger] data@[k]).1 <= s.last().1,
        ensures
            data@.len() == last - first + 1,
        decreases last - q,
    {
        assert(q * iv <= last * iv) by (nonlinear_arith)
            requires
                q <= last,
                iv > 0,
        ;
        let p = q * interval;
        i = split_from(input, p, i);
        let value = value_at_split(input, p, i);
        let ghost k = data@.len() as int;
        data.push((p, value));
        assert(data@[k] == interpolated(s, iv)[k]);
        if q == last {
            break ;
        }
        assert(q * iv + iv == (q + 1) * iv) by (nonlinear_arith);
        q = q + 1;
    }
    assert(data@ =~= interpolated(s, iv));
    data
}

/// The interpolated stream starts with the first sample's value at the first
/// sample's time rounded down to the interval, ends with the last sample's
/// value at the last sample's time rounded up, and has one point for each
/// multiple of the interval in between.
pub proof fn lemma_interpolated_ends(s: Seq<StreamSample>, iv: int)
    requires
        interpolable(s, iv),
        s.len() > 0,
    ensures
        interpolated(s, iv).len() == grid_last(s, iv) - grid_first(s, iv) + 1,
        forall|k: int|
            0 <= k < interpolated(s, iv).len() ==> (#[trigger] interpolated(s, iv)[k]).0 == (
            grid_first(s, iv) + k) * iv,
        interpolated(s, iv)[0] == ((grid_first(s, iv) * iv) as u64, s[0].1),
        interpolated(s, iv).last() == ((grid_last(s, iv) * iv) as u64, s.last().1),
{
    lemma_grid(s, iv);
    let f = grid_first(s, iv);
    let l = grid_last(s, iv);
    let g = interpolated(s, iv);
    let n = s.len() as int;
    assert forall|k: int| 0 <= k < g.len() implies (#[trigger] g[k]).0 == (f + k) * iv by {
        assert((f + k) * iv <= l * iv) by (nonlinear_arith)
            requires
                f + k <= l,
                iv > 0,
        ;
        assert(0 <= (f + k) * iv) by (nonlinear_arith)
            requires
                f + k >= 0,
                iv > 0,
        ;
    }
    assert(is_split(s, f * iv, 0)) by {
        assert forall|j: int| 0 <= j < n implies (#[trigger] s[j]).0 >= f * iv by {
            if j > 0 {
                assert(s[0].0 < s[j].0);
            }
        }
    }
    lemma_split_index(s, f * iv, 0);
    assert(g[0] == ((f * iv) as u64, s[0].1));
    if l * iv > s.last().0 {
        assert(is_split(s, l * iv, n)) by {
            assert forall|j: int| 0 <= j < n implies (#[trigger] s[j]).0 < l * iv by {
                if j < n - 1 {
                    assert(s[j].0 < s[n - 1].0);
                }
            }
        }
        lemma_split_index(s, l * iv, n);
    } else {
        assert(is_split(s, l * iv, n - 1)) by {
            assert forall|j: int| 0 <= j < n - 1 implies (#[trigger] s[j]).0 < l * iv by {
                assert(s[j].0 < s[n - 1].0);
            }
        }
        lemma_split_index(s, l * iv, n - 1);
    }
    assert(g.last() == g[l - f]);
    assert((f + (l - f)) * iv == l * iv);
}

/// Each point of the series lies one interval after the one before.
pub open spec fn is_grid(g: Seq<StreamSample>, iv: int) -> bool {
    forall|k: int| 0 <= k < g.len() ==> (#[trigger] g[k]).0 == g[0].0 + k * iv
}

/// The value of a series on the grid at `p`: zero before it starts, its last
/// value after it ends, and the value at the nearest point at or before `p`
/// otherwise.
pub open spec fn lookup(g: Seq<StreamSample>, iv: int, p: int) -> int {
    if g.len() == 0 || p < g[0].0 {
        0
    } else if p > g.last().0 {
        g.last().1 as int
    } else {
        g[(p - g[0].0) / iv].1 as int
    }
}

/// The sum over all series of their values at `p`.
pub open spec fn total_at(gs: Seq<Seq<StreamSample>>, iv: int, p: int) -> int
    decreases gs.len(),
{
    if gs.len() == 0 {
        0
    } else {
        total_at(gs.drop_last(), iv, p) + lookup(gs.last(), iv, p)
    }
}

/// The earliest first point of the series that have any.
pub open spec fn grid_start(gs: Seq<Seq<StreamSample>>) -> Option<u64>
    decreases gs.len(),
{
    if gs.len() == 0 {
        None
    } else {
        let rest = grid_start(gs.drop_last());
        let g = gs.last();
        if g.len() == 0 {
            rest
        } else {
            match rest {
                None => Some(g[0].0),
                Some(m) => Some(
                    if g[0].0 < m {
                        g[0].0
                    } else {
                        m
                    },
                ),
            }
        }
    }
}

/// The latest last point of the series that have any.
pub open spec fn grid_end(gs: Seq<Seq<StreamSample>>) -> Option<u64>
    decreases gs.len(),
{
    if gs.len() == 0 {
        None
    } else {
        let rest = grid_end(gs.drop_last());
        let g = gs.last();
        if g.len() == 0 {
            rest
        } else {
            match rest {
                None => Some(g.last().0),
                Some(m) => Some(
                    if g.last().0 > m {
                        g.last().0
                    } else {
                        m
                    },
                ),
            }
        }
    }
}

/// The sum of series that share a grid, from the earliest start to the latest
/// end, stepping by `iv`; empty when no series has a point.
pub open spec fn summed(gs: Seq<Seq<StreamSample>>, iv: int) -> Seq<StreamSample> {
    match (grid_start(gs), grid_end(gs)) {
        (Some(a), Some(b)) => Seq::new(
            ((b - a) / iv + 1) as nat,
            |k: int| ((a + k * iv) as u64, total_at(gs, iv, a + k * iv) as u64),
        ),
        _ => Seq::empty(),
    }
}

pub open spec fn views(v: Seq<Vec<StreamSample>>) -> Seq<Seq<StreamSample>> {
    v.map_values(|x: Vec<StreamSample>| x@)
}

/// Every stream interpolated at `iv`.
pub open spec fn all_interpolated(ss: Seq<Seq<StreamSample>>, iv: int) -> Seq<
    Seq<StreamSample>,
> {
    Seq::new(ss.len(), |j: int| interpolated(ss[j], iv))
}

/// A stream's final byte count, zero for a stream without samples.
pub open spec fn last_value(s: Seq<StreamSample>) -> int {
    if s.len() == 0 {
        0
    } else {
        s.last().1 as int
    }
}

/// The bytes that all streams carried in the end.
pub open spec fn total_last(ss: Seq<Seq<StreamSample>>) -> int
    decreases ss.len(),
{
    if ss.len() == 0 {
        0
    } else {
        total_last(ss.drop_last()) + last_value(ss.last())
    }
}

/// What summation needs: streams that each can be interpolated, whose final
/// byte counts add up within `u64`.
pub open spec fn summable(ss: Seq<Seq<StreamSample>>, iv: int) -> bool {
    &&& iv > 0
    &&& forall|j: int| 0 <= j < ss.len() ==> interpolable(#[trigger] ss[j], iv)
    &&& total_last(ss) <= u64::MAX
}

pub proof fn lemma_total_last_prefix(ss: Seq<Seq<StreamSample>>, j: int)
    requires
        0 <= j <= ss.len(),
    ensures
        total_last(ss.subrange(0, j)) <= total_last(ss),
        0 <= total_last(ss.subrange(0, j)),
    decreases ss.len(),
{
    if j == ss.len() {
        assert(ss.subrange(0, j) =~= ss);
        lemma_total_last_nonneg(ss);
    } else {
        assert(ss.drop_last().subrange(0, j) =~= ss.subrange(0, j));
        lemma_total_last_prefix(ss.drop_last(), j);
    }
}

pub proof fn lemma_total_last_nonneg(ss: Seq<Seq<StreamSample>>)
    ensures
        0 <= total_last(ss),
    decreases ss.len(),
{
    if ss.len() > 0 {
        lemma_total_last_nonneg(ss.drop_last());
    }
}

proof fn lemma_interpolated_grid(s: Seq<StreamSample>, iv: int)
    requires
        interpolable(s, iv),
    ensures
        is_grid(interpolated(s, iv), iv),
        s.len() > 0 ==> interpolated(s, iv).len() > 0,
        s.len() == 0 ==> interpolated(s, iv).len() == 0,
{
    if s.len() > 0 {
        lemma_interpolated_ends(s, iv);
        lemma_grid(s, iv);
        let g = interpolated(s, iv);
        let f = grid_first(s, iv);
        assert forall|k: int| 0 <= k < g.len() implies (#[trigger] g[k]).0 == g[0].0 + k * iv by {
            assert(g[0].0 == (f + 0) * iv);
            assert((f + k) * iv == f * iv + k * iv) by (nonlinear_arith);
        }
    }
}

proof fn lemma_lookup_index(g: Seq<StreamSample>, iv: int, p: int)
    requires
        iv > 0,
        is_grid(g, iv),
        g.len() > 0,
        g[0].0 <= p <= g.last().0,
    ensures
        0 <= (p - g[0].0) / iv < g.len(),
{
    let d = g.len() - 1;
    assert(g[d].0 == g[0].0 + d * iv);
    lemma_div_is_ordered(p - g[0].0, d * iv, iv);
    lemma_div_multiples_vanish(d, iv);
    assert(d * iv == iv * d) by (nonlinear_arith);
    lemma_div_pos_is_pos(p - g[0].0, iv);
}

/// The value of a series on the grid at `p`.
fn lookup_at(g: &Vec<StreamSample>, iv: u64, p: u64) -> (r: u64)
    requires
        iv > 0,
        is_grid(g@, iv as int),
    ensures
        r == lookup(g@, iv as int, p as int),
{
    let n = g.len();
    if n == 0 || p < g[0].0 {
        0
    } else if p > g[n - 1].0 {
        g[n - 1].1
    } else {
        proof {
            lemma_lookup_index(g@, iv as int, p as int);
        }
        let idx = ((p - g[0].0) / iv) as usize;
        g[idx].1
    }
}

/// The sum over all series of their values at `p`.
fn total_at_point(
    bw: &Vec<Vec<StreamSample>>,
    iv: u64,
    p: u64,
    Ghost(ss): Ghost<Seq<Seq<StreamSample>>>,
) -> (r: u64)
    requires
        iv > 0,
        ss.len() == bw@.len(),
        total_last(ss) <= u64::MAX,
        forall|j: int| 0 <= j < bw@.len() ==> is_grid(#[trigger] bw@[j]@, iv as int),
        forall|j: int, k: int|
            0 <= j < bw@.len() && 0 <= k < bw@[j]@.len() ==> (#[trigger] bw@[j]@[k]).1
                <= last_value(ss[j]),
    ensures
        r == total_at(views(bw@), iv as int, p as int),
{
    let mut acc: u64 = 0;
    let mut j: usize = 0;
    while j < bw.len()
        invariant
            j <= bw@.len(),
            iv > 0,
            ss.len() == bw@.len(),
            total_last(ss) <= u64::MAX,
            forall|j: int| 0 <= j < bw@.len() ==> is_grid(#[trigger] bw@[j]@, iv as int),
            forall|j: int, k: int|
                0 <= j < bw@.len() && 0 <= k < bw@[j]@.len() ==> (#[trigger] bw@[j]@[k]).1
                    <= last_value(ss[j]),
            acc == total_at(views(bw@).subrange(0, j as int), iv as int, p as int),
            acc <= total_last(ss.subrange(0, j as int)),
        decreases bw@.len() - j,
    {
        let v = lookup_at(&bw[j], iv, p);
        proof {
            let g = bw@[j as int]@;
            if g.len() > 0 {
                assert(g[g.len() - 1].1 <= last_value(ss[j as int]));
                if p >= g[0].0 && p <= g.last().0 {
                    lemma_lookup_index(g, iv as int, p as int);
                }
            }
            assert(views(bw@).subrange(0, j + 1).drop_last() =~= views(bw@).subrange(
                0,
                j as int,
            ));
            assert(ss.subrange(0, j + 1).drop_last() =~= ss.subrange(0, j as int));
            lemma_total_last_prefix(ss, j + 1);
        }
        acc = acc + v;
        j = j + 1;
    }
    assert(views(bw@).subrange(0, j as int) =~= views(bw@));
    acc
}

proof fn lemma_grid_bounds(gs: Seq<Seq<StreamSample>>)
    requires
        forall|j: int|
            0 <= j < gs.len() && (#[trigger] gs[j]).len() > 0 ==> gs[j][0].0 <= gs[j].last().0,
    ensures
        grid_start(gs) is Some <==> grid_end(gs) is Some,
        grid_start(gs) matches Some(a) ==> a <= grid_end(gs)->0,
    decreases gs.len(),
{
    if gs.len() > 0 {
        let r = gs.drop_last();
        assert forall|j: int| 0 <= j < r.len() && (#[trigger] r[j]).len() > 0 implies r[j][0].0
            <= r[j].last().0 by {
            assert(r[j] == gs[j]);
        }
        lemma_grid_bounds(r);
        assert(gs.last() == gs[gs.len() - 1]);
    }
}

/// Interpolates every stream at `interval` and adds them up at each point of
/// the grid that covers them all.
pub fn sum_bytes(input: &[Vec<StreamSample>], interval: u64) -> (r: Vec<StreamSample>)
    requires
        summable(views(input@), interval as int),
    ensures
        r@ == summed(all_interpolated(views(input@), interval as int), interval as int),
{
    let ghost ss = views(input@);
    let ghost iv = interval as int;
    let mut bw: Vec<Vec<StreamSample>> = Vec::new();
    let mut j: usize = 0;
    while j < input.len()
        invariant
            j <= input@.len(),
            ss == views(input@),
            summable(ss, iv),
            iv == interval as int,
            bw@.len() == j,
            forall|i: int| 0 <= i < j ==> (#[trigger] bw@[i])@ == interpolated(ss[i], iv),
            forall|i: int, k: int|
                0 <= i < j && 0 <= k < bw@[i]@.len() ==> (#[trigger] bw@[i]@[k]).1
                    <= last_value(ss[i]),
        decreases input@.len() - j,
    {
        assert(interpolable(ss[j as int], iv));
        assert(ss[j as int] == input@[j as int]@);
        let g = interpolate(input[j].as_slice(), interval);
        bw.push(g);
        j = j + 1;
    }
    let ghost gs = views(bw@);
    assert(gs =~= all_interpolated(ss, iv));
    proof {
        assert forall|i: int| 0 <= i < bw@.len() implies is_grid(#[trigger] bw@[i]@, iv) by {
            lemma_interpolated_grid(ss[i], iv);
        }
        assert forall|i: int| 0 <= i < gs.len() && (#[trigger] gs[i]).len() > 0 implies gs[i][0].0
            <= gs[i].last().0 by {
            assert(gs[i] == bw@[i]@);
            let g = gs[i];
            assert(g[g.len() - 1].0 == g[0].0 + (g.len() - 1) * iv);
            assert(0 <= (g.len() - 1) * iv) by (nonlinear_arith)
                requires
                    g.len() >= 1,
                    iv > 0,
            ;
        }
        lemma_grid_bounds(gs);
    }
    let mut start: Option<u64> = None;
    let mut end: Option<u64> = None;
    let mut j: usize = 0;
    while j < bw.len()
        invariant
            j <= bw@.len(),
            gs == views(bw@),
            start == grid_start(gs.subrange(0, j as int)),
            end == grid_end(gs.subrange(0, j as int)),
        decreases bw@.len() - j,
    {
        let ghost sub = gs.subrange(0, j + 1);
        assert(sub.drop_last() =~= gs.subrange(0, j as int));
        assert(sub.last() == bw@[j as int]@);
        let n = bw[j].len();
        if n > 0 {
            let a = bw[j][0].0;
            let b = bw[j][n - 1].0;
            start = match start {
                None => Some(a),
                Some(m) => Some(
                    if a < m {
                        a
                    } else {
                        m
                    },
                ),
            };
            end = match end {
                None => Some(b),
                Some(m) => Some(
                    if b > m {
                        b
                    } else {
                        m
                    },
                ),
            };
        }
        j = j + 1;
    }
    assert(gs.subrange(0, bw@.len() as int) =~= gs);
    let mut data: Vec<StreamSample> = Vec::new();
    match (start, end) {
        (Some(a), Some(b)) => {
            let mut p: u64 = a;
            let ghost mut k: int = 0;
            loop
                invariant_except_break
                    data@.len() == k,
                invariant
                    iv == interval as int,
                    iv > 0,
                    a <= p <= b,
                    p == a + k * iv,
                    k >= 0,
                    gs == views(bw@),
                    total_last(ss) <= u64::MAX,
                    ss.len() == bw@.len(),
                    forall|i: int| 0 <= i < bw@.len() ==> is_grid(#[trigger] bw@[i]@, iv),
                    forall|i: int, k: int|
                        0 <= i < bw@.len() && 0 <= k < bw@[i]@.len() ==> (#[trigger] bw@[i]@[k]).1
                            <= last_value(ss[i]),
                    forall|i: int|
                        0 <= i < data@.len() ==> #[trigger] data@[i] == ((a + i * iv) as u64,
                        total_at(gs, iv, a + i * iv) as u64),
                ensures
                    data@.len() == (b - a) / iv + 1,
                decreases b - p,
            {
                let v = total_at_point(&bw, interval, p, Ghost(ss));
                data.push((p, v));
                if b - p < interval {
                    proof {
                        lemma_fundamental_div_mod_converse((b - a) as int, iv, k, (b - p) as int);
                    }
                    break ;
                }
                p = p + interval;
                proof {
                    k = k + 1;
                    assert(a + k * iv == a + (k - 1) * iv + iv) by (nonlinear_arith);
                }
            }
            assert(data@ =~= summed(gs, iv));
        },
        _ => {
            assert(summed(gs, iv) =~= Seq::<StreamSample>::empty());
        },
    }
    data
}

proof fn lemma_split_exists(s: Seq<StreamSample>, p: int)
    requires
        samples_ordered(s),
    ensures
        is_split(s, p, split_index(s, p)),
    decreases s.len(),
{
    let n = s.len() as int;
    if n == 0 {
        assert(is_split(s, p, 0));
        lemma_split_index(s, p, 0);
    } else {
        let t = s.drop_last();
        assert(samples_ordered(t)) by {
            assert forall|a: int, b: int| 0 <= a < b < t.len() implies #[trigger] t[a].0
                < #[trigger] t[b].0 && t[a].1 <= t[b].1 by {
                assert(t[a] == s[a] && t[b] == s[b]);
            }
        }
        lemma_split_exists(t, p);
        let i = split_index(t, p);
        if s[n - 1].0 < p {
            assert(is_split(s, p, n)) by {
                assert forall|j: int| 0 <= j < n implies (#[trigger] s[j]).0 < p by {
                    if j < n - 1 {
                        assert(s[j].0 < s[n - 1].0);
                    }
                }
            }
            lemma_split_index(s, p, n);
        } else {
            assert(is_split(s, p, i)) by {
                assert forall|j: int| 0 <= j < i implies (#[trigger] s[j]).0 < p by {
                    assert(t[j] == s[j]);
                }
                assert forall|j: int| i <= j < n implies (#[trigger] s[j]).0 >= p by {
                    if j < n - 1 {
                        assert(t[j] == s[j]);
                    }
                }
            }
            lemma_split_index(s, p, i);
        }
    }
}

/// An interpolated value lies between zero and the stream's last value.
proof fn lemma_value_bound(s: Seq<StreamSample>, p: int)
    requires
        samples_ordered(s),
        s.len() > 0,
    ensures
        0 <= value_at(s, p) <= s.last().1,
{
    lemma_split_exists(s, p);
    let i = split_index(s, p);
    let n = s.len() as int;
    if i < n {
        if i < n - 1 {
            assert(s[i].1 <= s[n - 1].1);
        }
        if !(s[i].0 == p || i == 0) {
            let a = s[i - 1];
            let b = s[i];
            assert(a.0 < b.0 && a.1 <= b.1);
            let len = b.0 - a.0;
            let delta = b.1 - a.1;
            let x = p - a.0;
            assert(0 <= x <= len);
            assert(0 <= delta * x <= delta * len) by (nonlinear_arith)
                requires
                    0 <= x <= len,
                    delta >= 0,
            ;
            lemma_div_is_ordered(delta * x, delta * len, len);
            lemma_div_multiples_vanish(delta, len);
            assert(delta * len == len * delta) by (nonlinear_arith);
            lemma_div_pos_is_pos(delta * x, len);
        }
    }
}

/// A stream's interpolated series never exceeds the stream's last value.
proof fn lemma_lookup_bound(s: Seq<StreamSample>, iv: int, p: int)
    requires
        interpolable(s, iv),
    ensures
        0 <= lookup(interpolated(s, iv), iv, p) <= last_value(s),
{
    let g = interpolated(s, iv);
    if g.len() > 0 {
        lemma_interpolated_grid(s, iv);
        assert forall|k: int| 0 <= k < g.len() implies 0 <= (#[trigger] g[k]).1 <= last_value(s) by {
            lemma_value_bound(s, (grid_first(s, iv) + k) * iv);
        }
        if p >= g[0].0 && p <= g.last().0 {
            lemma_lookup_index(g, iv, p);
        }
    }
}

/// Two streams interpolated at `iv` and summed.
pub open spec fn pair_sum(a: Seq<StreamSample>, b: Seq<StreamSample>, iv: int) -> Seq<StreamSample> {
    summed(all_interpolated(seq![a, b], iv), iv)
}

/// At each point of their common grid, the sum of two streams is the sum of
/// the two streams' interpolated values there.
pub proof fn lemma_sum_of_two(a: Seq<StreamSample>, b: Seq<StreamSample>, iv: int)
    requires
        summable(seq![a, b], iv),
    ensures
        forall|k: int|
            0 <= k < pair_sum(a, b, iv).len() ==> {
                let q = #[trigger] pair_sum(a, b, iv)[k];
                q.1 == lookup(interpolated(a, iv), iv, q.0 as int) + lookup(
                    interpolated(b, iv),
                    iv,
                    q.0 as int,
                )
            },
{
    let ss = seq![a, b];
    let gs = all_interpolated(ss, iv);
    assert(ss[0] == a && ss[1] == b);
    assert(interpolable(a, iv) && interpolable(b, iv));
    assert(gs[0] == interpolated(a, iv));
    assert(gs[1] == interpolated(b, iv));
    assert(gs.drop_last().drop_last() =~= Seq::<Seq<StreamSample>>::empty());
    assert(gs.drop_last().last() == gs[0]);
    assert(ss.drop_last().drop_last() =~= Seq::<Seq<StreamSample>>::empty());
    assert(ss.drop_last().last() == a);
    assert(ss.last() == b);
    assert(total_last(ss.drop_last().drop_last()) == 0);
    assert(total_last(ss.drop_last()) == last_value(a));
    assert(total_last(ss) == last_value(a) + last_value(b));
    assert forall|j: int| 0 <= j < gs.len() && (#[trigger] gs[j]).len() > 0 implies gs[j][0].0
        <= gs[j].last().0 by {
        lemma_interpolated_grid(ss[j], iv);
        let g = gs[j];
        assert(g[g.len() - 1].0 == g[0].0 + (g.len() - 1) * iv);
        assert(0 <= (g.len() - 1) * iv) by (nonlinear_arith)
            requires
                g.len() >= 1,
                iv > 0,
        ;
    }
    lemma_grid_bounds(gs);
    let r = summed(gs, iv);
    assert forall|k: int| 0 <= k < r.len() implies {
        let q = #[trigger] r[k];
        q.1 == lookup(interpolated(a, iv), iv, q.0 as int) + lookup(
            interpolated(b, iv),
            iv,
            q.0 as int,
        )
    } by {
        assert(grid_start(gs) is Some);
        let s0 = grid_start(gs)->0 as int;
        let e0 = grid_end(gs)->0 as int;
        let p = s0 + k * iv;
        assert(r.len() == ((e0 - s0) / iv + 1) as nat);
        lemma_div_pos_is_pos(e0 - s0, iv);
        assert(k <= (e0 - s0) / iv);
        lemma_fundamental_div_mod(e0 - s0, iv);
        lemma_mod_pos_bound(e0 - s0, iv);
        assert(k * iv <= ((e0 - s0) / iv) * iv) by (nonlinear_arith)
            requires
                k <= (e0 - s0) / iv,
                iv > 0,
        ;
        assert(0 <= k * iv) by (nonlinear_arith)
            requires
                k >= 0,
                iv > 0,
        ;
        assert(0 <= p <= u64::MAX);
        lemma_lookup_bound(a, iv, p);
        lemma_lookup_bound(b, iv, p);
        assert(gs.last() == gs[1]);
        assert(total_at(gs.drop_last().drop_last(), iv, p) == 0);
        assert(total_at(gs.drop_last(), iv, p) == lookup(gs[0], iv, p));
        assert(total_at(gs, iv, p) == lookup(gs[0], iv, p) + lookup(gs[1], iv, p));
        assert(r[k] == (p as u64, total_at(gs, iv, p) as u64));
    }
}

/// Nothing to sum gives an empty series: no streams, or streams without
/// samples.
pub proof fn lemma_sum_of_nothing(ss: Seq<Seq<StreamSample>>, iv: int)
    requires
        forall|j: int| 0 <= j < ss.len() ==> (#[trigger] ss[j]).len() == 0,
    ensures
        summed(all_interpolated(ss, iv), iv).len() == 0,
{
    let gs = all_interpolated(ss, iv);
    assert forall|j: int| 0 <= j < gs.len() implies (#[trigger] gs[j]).len() == 0 by {
        assert(ss[j].len() == 0);
    }
    lemma_no_start(gs);
}

proof fn lemma_no_start(gs: Seq<Seq<StreamSample>>)
    requires
        forall|j: int| 0 <= j < gs.len() ==> (#[trigger] gs[j]).len() == 0,
    ensures
        grid_start(gs) is None,
    decreases gs.len(),
{
    if gs.len() > 0 {
        let r = gs.drop_last();
        assert forall|j: int| 0 <= j < r.len() implies (#[trigger] r[j]).len() == 0 by {
            assert(r[j] == gs[j]);
        }
        lemma_no_start(r);
        assert(gs.last() == gs[gs.len() - 1]);
    }
}

/// A transfer rate: `bits` bits over `micros` microseconds, ending at `time`;
/// in megabits per second it is `bits / micros`.
#[derive(Clone, Copy, Debug, PartialEq, Eq)]
pub struct Rate {
    pub time: u64,
    pub bits: i128,
    pub micros: u64,
}

pub open spec fn zero_rate(t: int) -> Rate {
    Rate { time: t as u64, bits: 0, micros: 1 }
}

/// The rate over the step that ends at sample `i`; zero at the first sample.
pub open spec fn step_rate(s: Seq<StreamSample>, i: int) -> Rate {
    if i == 0 {
        zero_rate(s[0].0 as int)
    } else {
        Rate {
            time: s[i].0,
            bits: ((s[i].1 - s[i - 1].1) * 8) as i128,
            micros: (s[i].0 - s[i - 1].0) as u64,
        }
    }
}

/// The rate at each sample, with a zero one microsecond before the first
/// (where that time exists) and one microsecond after the last.
pub open spec fn rates(s: Seq<StreamSample>) -> Seq<Rate> {
    if s.len() == 0 {
        Seq::empty()
    } else {
        let head = if s[0].0 > 0 {
            seq![zero_rate(s[0].0 - 1)]
        } else {
            Seq::empty()
        };
        head + Seq::new(s.len(), |i: int| step_rate(s, i)) + seq![zero_rate(s.last().0 + 1)]
    }
}

/// What rates need: time never goes back, and the last sample leaves room
/// for the trailing zero.
pub open spec fn rate_ready(s: Seq<StreamSample>) -> bool {
    &&& forall|i: int| 0 < i < s.len() ==> (#[trigger] s[i]).0 >= s[i - 1].0
    &&& s.len() > 0 ==> s.last().0 < u64::MAX
}

/// Whether a series can be turned into rates: see `rate_ready`.
pub fn rates_ready(s: &[StreamSample]) -> (r: bool)
    ensures
        r == rate_ready(s@),
{
    let n = s.len();
    let mut i: usize = 1;
    while i < n
        invariant
            1 <= i,
            n == s@.len(),
            forall|k: int| 0 < k < i && k < n ==> (#[trigger] s@[k]).0 >= s@[k - 1].0,
        decreases n - i,
    {
        if s[i].0 < s[i - 1].0 {
            assert(s@[i as int].0 < s@[i - 1].0);
            return false;
        }
        i = i + 1;
    }
    n == 0 || s[n - 1].0 < u64::MAX
}

/// Turns cumulative byte counts into the rate between consecutive samples.
pub fn to_rates(stream: &[StreamSample]) -> (r: Vec<Rate>)
    requires
        rate_ready(stream@),
    ensures
        r@ == rates(stream@),
{
    let n = stream.len();
    if n == 0 {
        return Vec::new();
    }
    let ghost s = stream@;
    let ghost head = if s[0].0 > 0 {
        seq![zero_rate(s[0].0 - 1)]
    } else {
        Seq::<Rate>::empty()
    };
    let mut result: Vec<Rate> = Vec::new();
    if stream[0].0 > 0 {
        result.push(Rate { time: stream[0].0 - 1, bits: 0, micros: 1 });
    }
    assert(result@ =~= head);
    let mut i: usize = 0;
    while i < n
        invariant
            s == stream@,
            n == s.len(),
            n > 0,
            rate_ready(s),
            i <= n,
            head == (if s[0].0 > 0 {
                seq![zero_rate(s[0].0 - 1)]
            } else {
                Seq::<Rate>::empty()
            }),
            result@ =~= head + Seq::new(i as nat, |k: int| step_rate(s, k)),
        decreases n - i,
    {
        let rate = if i == 0 {
            Rate { time: stream[0].0, bits: 0, micros: 1 }
        } else {
            assert(s[i as int].0 >= s[i - 1].0);
            let bytes = stream[i].1 as i128 - stream[i - 1].1 as i128;
            Rate { time: stream[i].0, bits: bytes * 8, micros: stream[i].0 - stream[i - 1].0 }
        };
        result.push(rate);
        i = i + 1;
        assert(result@ =~= head + Seq::new(i as nat, |k: int| step_rate(s, k)));
    }
    result.push(Rate { time: stream[n - 1].0 + 1, bits: 0, micros: 1 });
    assert(result@ =~= rates(s));
    result
}

/// A stream of a single sample after time zero gives that sample's zero rate
/// between two synthetic zeros.
pub proof fn lemma_single_sample_rates(t: u64, v: u64)
    requires
        0 < t < u64::MAX,
    ensures
        rates(seq![(t, v)]) == seq![
            zero_rate(t - 1),
            zero_rate(t as int),
            zero_rate(t + 1),
        ],
{
    let s = seq![(t, v)];
    assert(rates(s) =~= seq![zero_rate(t - 1), zero_rate(t as int), zero_rate(t + 1)]);
}

} // verus!
